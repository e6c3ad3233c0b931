//! The text form of offset tokens.
//!
//! A token is three numeric fields: radius, longitude, latitude. In text
//! the fields are separated by single spaces; on reading, any run of blanks
//! separates, and blanks at either end are ignored. What makes a field
//! numeric is said in `number`.

use vstd::prelude::*;

use crate::number::{is_numeric, lemma_numeric_bytes, numeric};

verus! {

/// The space that separates fields in text.
pub const SPACE: u8 = 32;

/// Why a text is not a token.
#[derive(Clone, Copy, Debug, PartialEq, Eq)]
pub enum ParseError {
    /// Fewer fields than a token has, or a last token cut short.
    TooFewFields,
    /// A field is not numeric.
    NotANumber,
}

/// The three fields of a token, as text.
#[derive(Clone, Debug, PartialEq, Eq)]
pub struct TokenText {
    pub radius: Vec<u8>,
    pub longitude: Vec<u8>,
    pub latitude: Vec<u8>,
}

/// A blank: space, tab, line feed, form feed or carriage return.
pub open spec fn is_blank(b: u8) -> bool {
    b == 32 || b == 9 || b == 10 || b == 12 || b == 13
}

/// The fields of a text: its maximal runs of bytes that are not blank.
pub open spec fn words(s: Seq<u8>) -> Seq<Seq<u8>>
    decreases s.len(),
{
    if s.len() == 0 {
        Seq::empty()
    } else if is_blank(s.last()) {
        words(s.drop_last())
    } else if s.len() >= 2 && !is_blank(s[s.len() - 2]) {
        let before = words(s.drop_last());
        before.update(before.len() - 1, before.last().push(s.last()))
    } else {
        words(s.drop_last()).push(seq![s.last()])
    }
}

/// The byte strings held by a list of fields.
pub open spec fn field_texts(v: Seq<Vec<u8>>) -> Seq<Seq<u8>> {
    Seq::new(v.len(), |i: int| v[i]@)
}

impl TokenText {
    /// The three fields in order.
    pub open spec fn fields(&self) -> Seq<Seq<u8>> {
        seq![self.radius@, self.longitude@, self.latitude@]
    }

    /// Every field is numeric.
    pub open spec fn wf(&self) -> bool {
        is_numeric(self.radius@) && is_numeric(self.longitude@) && is_numeric(self.latitude@)
    }
}

/// The text of three fields: the fields with one space between them.
pub open spec fn token_text(fields: Seq<Seq<u8>>) -> Seq<u8> {
    fields[0] + seq![SPACE] + fields[1] + seq![SPACE] + fields[2]
}

/// What reading the fields `found` as one token gives.
pub open spec fn token_of(found: Seq<Seq<u8>>) -> Result<Seq<Seq<u8>>, ParseError> {
    if found.len() < 3 {
        Err(ParseError::TooFewFields)
    } else if !(is_numeric(found[0]) && is_numeric(found[1]) && is_numeric(found[2])) {
        Err(ParseError::NotANumber)
    } else {
        Ok(found.subrange(0, 3))
    }
}

/// What reading the fields `found` as a run of tokens gives.
pub open spec fn tokens_of(found: Seq<Seq<u8>>) -> Result<Seq<Seq<Seq<u8>>>, ParseError> {
    if found.len() % 3 != 0 {
        Err(ParseError::TooFewFields)
    } else if exists|i: int| 0 <= i < found.len() && !is_numeric(#[trigger] found[i]) {
        Err(ParseError::NotANumber)
    } else {
        Ok(Seq::new(found.len() / 3, |t: int| found.subrange(3 * t, 3 * t + 3)))
    }
}

/// Whether `b` is a blank.
fn blank(b: u8) -> (yes: bool)
    ensures
        yes == is_blank(b),
{
    b == 32 || b == 9 || b == 10 || b == 12 || b == 13
}

/// Splits a text into its fields.
pub fn split_fields(text: &Vec<u8>) -> (fields: Vec<Vec<u8>>)
    ensures
        field_texts(fields@) == words(text@),
{
    let mut fields: Vec<Vec<u8>> = Vec::new();
    let mut i: usize = 0;
    assert(text@.subrange(0, 0) =~= Seq::<u8>::empty());
    assert(field_texts(fields@) =~= words(text@.subrange(0, 0)));
    while i < text.len()
        invariant
            i <= text@.len(),
            field_texts(fields@) == words(text@.subrange(0, i as int)),
            i > 0 && !is_blank(text@[i - 1]) ==> fields@.len() > 0,
        decreases text@.len() - i,
    {
        let b = text[i];
        let ghost before = text@.subrange(0, i as int);
        let ghost after = text@.subrange(0, i + 1);
        let ghost old_fields = field_texts(fields@);
        proof {
            assert(after.drop_last() =~= before);
            assert(after.last() == b);
            if i > 0 {
                assert(after[after.len() - 2] == text@[i - 1]);
            }
        }
        if !blank(b) {
            if i > 0 && !blank(text[i - 1]) {
                let last = fields.len() - 1;
                let run: &mut Vec<u8> = &mut fields[last];
                run.push(b);
                assert(field_texts(fields@) =~= old_fields.update(
                    old_fields.len() - 1,
                    old_fields.last().push(b),
                ));
            } else {
                let mut run: Vec<u8> = Vec::new();
                run.push(b);
                fields.push(run);
                assert(field_texts(fields@) =~= old_fields.push(seq![b]));
            }
        }
        i += 1;
    }
    assert(text@.subrange(0, i as int) =~= text@);
    fields
}

/// Copies a field.
fn copy_field(field: &Vec<u8>) -> (out: Vec<u8>)
    ensures
        out@ == field@,
{
    let mut out: Vec<u8> = Vec::new();
    let mut i: usize = 0;
    while i < field.len()
        invariant
            i <= field@.len(),
            out@ == field@.subrange(0, i as int),
        decreases field@.len() - i,
    {
        out.push(field[i]);
        assert(field@.subrange(0, i + 1) =~= field@.subrange(0, i as int).push(field@[i as int]));
        i += 1;
    }
    assert(field@.subrange(0, i as int) =~= field@);
    out
}

impl TokenText {
    /// Reads one token: the first three fields of the text. Fields beyond
    /// the third are ignored.
    pub fn parse(text: &Vec<u8>) -> (read: Result<TokenText, ParseError>)
        ensures
            match read {
                Ok(token) => token_of(words(text@)) == Ok::<Seq<Seq<u8>>, ParseError>(
                    token.fields(),
                ) && token.wf(),
                Err(e) => token_of(words(text@)) == Err::<Seq<Seq<u8>>, ParseError>(e),
            },
    {
        let found = split_fields(text);
        let ghost all = words(text@);
        if found.len() < 3 {
            return Err(ParseError::TooFewFields);
        }
        assert(all[0] == found@[0]@ && all[1] == found@[1]@ && all[2] == found@[2]@);
        if !(numeric(&found[0]) && numeric(&found[1]) && numeric(&found[2])) {
            return Err(ParseError::NotANumber);
        }
        let token = TokenText {
            radius: copy_field(&found[0]),
            longitude: copy_field(&found[1]),
            latitude: copy_field(&found[2]),
        };
        assert(token.fields() =~= all.subrange(0, 3));
        Ok(token)
    }

    /// The text of the token: its fields with one space between them.
    pub fn to_text(&self) -> (text: Vec<u8>)
        ensures
            text@ == token_text(self.fields()),
    {
        let mut text: Vec<u8> = copy_field(&self.radius);
        text.push(SPACE);
        let mut i: usize = 0;
        while i < self.longitude.len()
            invariant
                i <= self.longitude@.len(),
                text@ == self.radius@ + seq![SPACE] + self.longitude@.subrange(0, i as int),
            decreases self.longitude@.len() - i,
        {
            text.push(self.longitude[i]);
            assert(self.longitude@.subrange(0, i + 1) =~= self.longitude@.subrange(
                0,
                i as int,
            ).push(self.longitude@[i as int]));
            i += 1;
        }
        assert(self.longitude@.subrange(0, i as int) =~= self.longitude@);
        text.push(SPACE);
        let mut j: usize = 0;
        while j < self.latitude.len()
            invariant
                j <= self.latitude@.len(),
                text@ == self.radius@ + seq![SPACE] + self.longitude@ + seq![SPACE]
                    + self.latitude@.subrange(0, j as int),
            decreases self.latitude@.len() - j,
        {
            text.push(self.latitude[j]);
            assert(self.latitude@.subrange(0, j + 1) =~= self.latitude@.subrange(0, j as int).push(
                self.latitude@[j as int],
            ));
            j += 1;
        }
        assert(self.latitude@.subrange(0, j as int) =~= self.latitude@);
        text
    }
}

/// The first `k` fields with one space between neighbours.
pub open spec fn join_fields(fields: Seq<Seq<u8>>, k: int) -> Seq<u8>
    decreases k,
{
    if k <= 0 {
        Seq::empty()
    } else if k == 1 {
        fields[0]
    } else {
        join_fields(fields, k - 1) + seq![SPACE] + fields[k - 1]
    }
}

/// The fields of a run of tokens, token after token.
pub open spec fn flat_fields(tokens: Seq<TokenText>, k: int) -> Seq<Seq<u8>>
    decreases k,
{
    if k <= 0 {
        Seq::empty()
    } else {
        flat_fields(tokens, k - 1) + tokens[k - 1].fields()
    }
}

/// A field as it stands in a text: not empty and without blanks.
pub open spec fn is_word(s: Seq<u8>) -> bool {
    s.len() >= 1 && forall|i: int| 0 <= i < s.len() ==> !is_blank(#[trigger] s[i])
}

/// A numeric field is not empty and holds no blank.
pub proof fn lemma_numeric_is_word(s: Seq<u8>)
    requires
        is_numeric(s),
    ensures
        is_word(s),
{
    lemma_numeric_bytes(s);
}

/// A word behind a text that does not end inside a word is one more field.
pub proof fn lemma_words_append_word(s: Seq<u8>, w: Seq<u8>)
    requires
        s.len() == 0 || is_blank(s.last()),
        is_word(w),
    ensures
        words(s + w) == words(s).push(w),
    decreases w.len(),
{
    let t = s + w;
    let b = w.last();
    assert(t.last() == b);
    if w.len() == 1 {
        assert(t.drop_last() =~= s);
        assert(w =~= seq![b]);
        if t.len() >= 2 {
            assert(t[t.len() - 2] == s.last());
        }
    } else {
        let shorter = w.drop_last();
        assert(is_word(shorter)) by {
            assert forall|i: int| 0 <= i < shorter.len() implies !is_blank(
                #[trigger] shorter[i],
            ) by {
                assert(shorter[i] == w[i]);
            }
        }
        lemma_words_append_word(s, shorter);
        assert(t.drop_last() =~= s + shorter);
        assert(t[t.len() - 2] == w[w.len() - 2]);
        let before = words(s + shorter);
        assert(before.update(before.len() - 1, before.last().push(b)) =~= words(s).push(w)) by {
            assert(shorter.push(b) =~= w);
        }
    }
}

/// Reading back what `join_fields` wrote gives the fields that were written.
pub proof fn lemma_join_round_trip(fields: Seq<Seq<u8>>, k: int)
    requires
        0 <= k <= fields.len(),
        forall|i: int| 0 <= i < k ==> is_word(#[trigger] fields[i]),
    ensures
        words(join_fields(fields, k)) == fields.subrange(0, k),
        k > 0 ==> join_fields(fields, k).len() > 0 && !is_blank(join_fields(fields, k).last()),
    decreases k,
{
    if k == 0 {
        assert(fields.subrange(0, 0) =~= Seq::<Seq<u8>>::empty());
    } else if k == 1 {
        let empty = Seq::<u8>::empty();
        lemma_words_append_word(empty, fields[0]);
        assert(empty + fields[0] =~= fields[0]);
        assert(fields.subrange(0, 1) =~= Seq::<Seq<u8>>::empty().push(fields[0]));
        assert(fields[0].last() == fields[0][fields[0].len() - 1]);
    } else {
        lemma_join_round_trip(fields, k - 1);
        let head = join_fields(fields, k - 1);
        let spaced = head + seq![SPACE];
        assert(spaced.drop_last() =~= head);
        assert(words(spaced) == words(head));
        lemma_words_append_word(spaced, fields[k - 1]);
        assert(fields.subrange(0, k) =~= fields.subrange(0, k - 1).push(fields[k - 1]));
        let last = fields[k - 1];
        assert((spaced + last).last() == last[last.len() - 1]);
    }
}

/// A token written and read back is the same token: for any three numeric
/// fields, the text of the token holds exactly these fields.
pub proof fn lemma_token_round_trip(fields: Seq<Seq<u8>>)
    requires
        fields.len() == 3,
        is_numeric(fields[0]),
        is_numeric(fields[1]),
        is_numeric(fields[2]),
    ensures
        token_of(words(token_text(fields))) == Ok::<Seq<Seq<u8>>, ParseError>(fields),
{
    lemma_numeric_is_word(fields[0]);
    lemma_numeric_is_word(fields[1]);
    lemma_numeric_is_word(fields[2]);
    lemma_join_round_trip(fields, 3);
    assert(join_fields(fields, 3) =~= token_text(fields)) by {
        assert(join_fields(fields, 1) == fields[0]);
        assert(join_fields(fields, 2) == fields[0] + seq![SPACE] + fields[1]);
    }
    assert(fields.subrange(0, 3) =~= fields);
}

/// Reads a run of tokens: every three fields make one token.
pub fn parse_sequence(text: &Vec<u8>) -> (read: Result<Vec<TokenText>, ParseError>)
    ensures
        match read {
            Ok(tokens) => {
                &&& tokens_of(words(text@)) is Ok
                &&& tokens@.len() == tokens_of(words(text@))->Ok_0.len()
                &&& forall|t: int|
                    0 <= t < tokens@.len() ==> (#[trigger] tokens@[t]).fields() == tokens_of(
                        words(text@),
                    )->Ok_0[t] && tokens@[t].wf()
            },
            Err(e) => tokens_of(words(text@)) == Err::<Seq<Seq<Seq<u8>>>, ParseError>(e),
        },
{
    let found = split_fields(text);
    let ghost all = words(text@);
    if found.len() % 3 != 0 {
        return Err(ParseError::TooFewFields);
    }
    let mut i: usize = 0;
    while i < found.len()
        invariant
            i <= found@.len(),
            found@.len() % 3 == 0,
            all == field_texts(found@),
            all == words(text@),
            forall|t: int| 0 <= t < i ==> is_numeric(#[trigger] all[t]),
        decreases found@.len() - i,
    {
        if !numeric(&found[i]) {
            assert(!is_numeric(all[i as int]));
            return Err(ParseError::NotANumber);
        }
        i += 1;
    }
    let total: usize = found.len();
    let count: usize = total / 3;
    let mut tokens: Vec<TokenText> = Vec::new();
    let mut t: usize = 0;
    while t < count
        invariant
            t <= count,
            total == found@.len(),
            total == 3 * count,
            all == field_texts(found@),
            forall|u: int| 0 <= u < all.len() ==> is_numeric(#[trigger] all[u]),
            tokens@.len() == t,
            forall|u: int|
                0 <= u < t ==> (#[trigger] tokens@[u]).fields() == all.subrange(3 * u, 3 * u + 3)
                    && tokens@[u].wf(),
        decreases count - t,
    {
        let base: usize = 3 * t;
        let token = TokenText {
            radius: copy_field(&found[base]),
            longitude: copy_field(&found[base + 1]),
            latitude: copy_field(&found[base + 2]),
        };
        proof {
            assert(all[base as int] == found@[base as int]@);
            assert(all[base + 1] == found@[base + 1]@);
            assert(all[base + 2] == found@[base + 2]@);
            assert(token.fields() =~= all.subrange(3 * t, 3 * t + 3));
        }
        tokens.push(token);
        t += 1;
    }
    Ok(tokens)
}

/// The text of a run of tokens: all their fields with one space between
/// neighbours.
pub fn sequence_text(tokens: &Vec<TokenText>) -> (text: Vec<u8>)
    ensures
        text@ == join_fields(
            flat_fields(tokens@, tokens@.len() as int),
            3 * tokens@.len() as int,
        ),
{
    let mut text: Vec<u8> = Vec::new();
    let mut t: usize = 0;
    while t < tokens.len()
        invariant
            t <= tokens@.len(),
            text@ == join_fields(flat_fields(tokens@, t as int), 3 * t as int),
            flat_fields(tokens@, t as int).len() == 3 * t,
        decreases tokens@.len() - t,
    {
        let one = tokens[t].to_text();
        let ghost before = flat_fields(tokens@, t as int);
        let ghost after = flat_fields(tokens@, t + 1);
        let ghost f = tokens@[t as int].fields();
        proof {
            assert(after =~= before + f);
            lemma_join_prefix(before, after, 3 * t as int);
            assert(after[3 * t] == f[0] && after[3 * t + 1] == f[1] && after[3 * t + 2] == f[2]);
            assert(join_fields(after, 3 * t + 2) == join_fields(after, 3 * t + 1) + seq![SPACE]
                + f[1]);
            assert(join_fields(after, 3 * t + 3) == join_fields(after, 3 * t + 2) + seq![SPACE]
                + f[2]);
        }
        if t > 0 {
            text.push(SPACE);
        }
        let mut i: usize = 0;
        let ghost head = text@;
        while i < one.len()
            invariant
                i <= one@.len(),
                text@ == head + one@.subrange(0, i as int),
            decreases one@.len() - i,
        {
            text.push(one[i]);
            assert(one@.subrange(0, i + 1) =~= one@.subrange(0, i as int).push(one@[i as int]));
            i += 1;
        }
        proof {
            assert(one@.subrange(0, i as int) =~= one@);
            assert(text@ =~= join_fields(after, 3 * t + 3));
        }
        t += 1;
    }
    text
}

/// Joining the first `k` fields looks at these fields only.
pub proof fn lemma_join_prefix(fields: Seq<Seq<u8>>, more: Seq<Seq<u8>>, k: int)
    requires
        0 <= k <= fields.len() <= more.len(),
        forall|i: int| 0 <= i < fields.len() ==> #[trigger] fields[i] == more[i],
    ensures
        join_fields(fields, k) == join_fields(more, k),
    decreases k,
{
    if k > 1 {
        lemma_join_prefix(fields, more, k - 1);
    }
}

} // verus!
