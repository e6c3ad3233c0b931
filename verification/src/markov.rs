//! A variable-order Markov chain over tokens.
//!
//! The chain counts, for every context of up to `order` preceding tokens,
//! how often each token followed it in the training sequences; the end of a
//! sequence is counted as a follower of its own. Generation starts from the
//! empty context and draws each next token with a probability proportional
//! to its count, until the end marker is drawn, the context is unknown, or
//! the length limit is reached.

use vstd::prelude::*;

use crate::rng::{advance, wide_draw, Rng};

verus! {

/// A token as text.
pub type Token = Seq<char>;

/// What may follow a context: a token, or `None` for the end of the sequence.
pub type Symbol = Option<Seq<char>>;

/// The followers of a context with their counts, in order of first sighting.
pub type Followers = Seq<(Option<Seq<char>>, nat)>;

/// One context and its followers.
pub type Row = (Seq<Seq<char>>, Seq<(Option<Seq<char>>, nat)>);

/// The texts of a token list.
pub open spec fn texts(v: Seq<String>) -> Seq<Token> {
    Seq::new(v.len(), |i: int| v[i]@)
}

/// A count raised by one; it stays at the largest value a counter holds.
pub open spec fn bump(count: nat) -> nat {
    if count < u64::MAX {
        count + 1
    } else {
        count
    }
}

/// The first of the first `k` rows whose context is `ctx`.
pub open spec fn find_row(rows: Seq<Row>, ctx: Seq<Token>, k: int) -> Option<int>
    decreases k,
{
    if k <= 0 {
        None
    } else {
        match find_row(rows, ctx, k - 1) {
            Some(i) => Some(i),
            None => if rows[k - 1].0 == ctx {
                Some(k - 1)
            } else {
                None
            },
        }
    }
}

/// The first of the first `k` followers that is `sym`.
pub open spec fn find_symbol(followers: Followers, sym: Symbol, k: int) -> Option<int>
    decreases k,
{
    if k <= 0 {
        None
    } else {
        match find_symbol(followers, sym, k - 1) {
            Some(j) => Some(j),
            None => if followers[k - 1].0 == sym {
                Some(k - 1)
            } else {
                None
            },
        }
    }
}

/// The table after one more sighting of `sym` behind `ctx`.
pub open spec fn observe(rows: Seq<Row>, ctx: Seq<Token>, sym: Symbol) -> Seq<Row> {
    match find_row(rows, ctx, rows.len() as int) {
        None => rows.push((ctx, seq![(sym, 1nat)])),
        Some(i) => match find_symbol(rows[i].1, sym, rows[i].1.len() as int) {
            None => rows.update(i, (ctx, rows[i].1.push((sym, 1nat)))),
            Some(j) => rows.update(i, (ctx, rows[i].1.update(j, (sym, bump(rows[i].1[j].1))))),
        },
    }
}

/// The context at position `i` of `seq`: the `order` tokens before it, or
/// all of them where there are fewer.
pub open spec fn context_at(seq: Seq<Token>, i: int, order: nat) -> Seq<Token> {
    seq.subrange(
        if i > order {
            i - order
        } else {
            0
        },
        i,
    )
}

/// What stands at position `i` of `seq`: a token, or the end.
pub open spec fn symbol_at(seq: Seq<Token>, i: int) -> Symbol {
    if 0 <= i < seq.len() {
        Some(seq[i])
    } else {
        None
    }
}

/// The table after the first `upto` positions of `seq` were observed.
pub open spec fn train_upto(rows: Seq<Row>, order: nat, seq: Seq<Token>, upto: int) -> Seq<Row>
    decreases upto,
{
    if upto <= 0 {
        rows
    } else {
        observe(
            train_upto(rows, order, seq, upto - 1),
            context_at(seq, upto - 1, order),
            symbol_at(seq, upto - 1),
        )
    }
}

/// The table after `seq` was observed whole, its end included.
pub open spec fn trained(rows: Seq<Row>, order: nat, seq: Seq<Token>) -> Seq<Row> {
    train_upto(rows, order, seq, seq.len() as int + 1)
}

/// The texts of a list of token lists.
pub open spec fn corpus_texts(v: Seq<Vec<String>>) -> Seq<Seq<Token>> {
    Seq::new(v.len(), |i: int| texts(v[i]@))
}

/// The table after the first `upto` sequences of a corpus were learnt, one
/// after the other. A sequence without tokens is passed over.
pub open spec fn trained_all(rows: Seq<Row>, order: nat, corpus: Seq<Seq<Token>>, upto: int) -> Seq<
    Row,
>
    decreases upto,
{
    if upto <= 0 {
        rows
    } else if corpus[upto - 1].len() == 0 {
        trained_all(rows, order, corpus, upto - 1)
    } else {
        trained(trained_all(rows, order, corpus, upto - 1), order, corpus[upto - 1])
    }
}

/// How often `sym` was seen behind `ctx`.
pub open spec fn tally(rows: Seq<Row>, ctx: Seq<Token>, sym: Symbol) -> nat {
    match find_row(rows, ctx, rows.len() as int) {
        None => 0,
        Some(i) => match find_symbol(rows[i].1, sym, rows[i].1.len() as int) {
            None => 0,
            Some(j) => rows[i].1[j].1,
        },
    }
}

/// The sum of the first `k` counts.
pub open spec fn weight_sum(followers: Followers, k: int) -> nat
    decreases k,
{
    if k <= 0 {
        0
    } else {
        weight_sum(followers, k - 1) + followers[k - 1].1
    }
}

/// The follower that a draw selects: counts are laid end to end from
/// position `i` on, and the draw falls into one of them.
pub open spec fn select_from(followers: Followers, draw: int, i: int) -> int
    decreases followers.len() - i,
{
    if i >= followers.len() {
        followers.len() as int
    } else if draw < followers[i].1 {
        i
    } else {
        select_from(followers, draw - followers[i].1, i + 1)
    }
}

/// The sequence generated from `out` on, and the state the generator is
/// left in, with at most `fuel` more tokens.
pub open spec fn generate_from(rows: Seq<Row>, order: nat, state: u64, out: Seq<Token>, fuel: nat)
    -> (Seq<Token>, u64)
    decreases fuel,
{
    if fuel == 0 {
        (out, state)
    } else {
        match find_row(rows, context_at(out, out.len() as int, order), rows.len() as int) {
            None => (out, state),
            Some(i) => {
                let followers = rows[i].1;
                let total = weight_sum(followers, followers.len() as int);
                if total == 0 {
                    (out, state)
                } else {
                    let j = select_from(followers, (wide_draw(state) as int) % (total as int), 0);
                    match followers[j].0 {
                        None => (out, advance(advance(state))),
                        Some(token) => generate_from(
                            rows,
                            order,
                            advance(advance(state)),
                            out.push(token),
                            (fuel - 1) as nat,
                        ),
                    }
                }
            },
        }
    }
}

/// One follower of a context and how often it was seen.
pub struct Successor {
    pub(crate) token: Option<String>,
    pub(crate) count: u64,
}

/// One context with its followers.
pub struct Transition {
    pub(crate) context: Vec<String>,
    pub(crate) successors: Vec<Successor>,
}

/// The chain: its order and its table of contexts.
pub struct Chain {
    pub(crate) order: usize,
    pub(crate) table: Vec<Transition>,
}

/// A stored follower as a symbol.
pub open spec fn symbol_of(token: Option<String>) -> Symbol {
    match token {
        Some(s) => Some(s@),
        None => None,
    }
}

/// A stored list of followers as mathematics.
pub closed spec fn followers_of(v: Seq<Successor>) -> Followers {
    Seq::new(v.len(), |j: int| (symbol_of(v[j].token), v[j].count as nat))
}

/// A stored table as mathematics.
pub closed spec fn rows_of(v: Seq<Transition>) -> Seq<Row> {
    Seq::new(v.len(), |i: int| (texts(v[i].context@), followers_of(v[i].successors@)))
}

/// Whether a stored context is the window `seq[start..end]`.
fn same_window(context: &Vec<String>, seq: &Vec<String>, start: usize, end: usize) -> (same: bool)
    requires
        start <= end <= seq@.len(),
    ensures
        same == (texts(context@) == texts(seq@).subrange(start as int, end as int)),
{
    let ghost window = texts(seq@).subrange(start as int, end as int);
    if context.len() != end - start {
        assert(texts(context@).len() != window.len());
        return false;
    }
    let mut i: usize = 0;
    while i < context.len()
        invariant
            i <= context@.len(),
            start <= end <= seq@.len(),
            context@.len() == end - start,
            window == texts(seq@).subrange(start as int, end as int),
            forall|t: int| 0 <= t < i ==> (#[trigger] context@[t])@ == seq@[start + t]@,
        decreases context@.len() - i,
    {
        if !(context[i] == seq[start + i]) {
            assert(texts(context@)[i as int] != window[i as int]);
            return false;
        }
        i += 1;
    }
    assert(texts(context@) =~= window);
    true
}

/// Whether a stored follower is what stands at position `i` of `seq`.
fn same_symbol(token: &Option<String>, seq: &Vec<String>, i: usize) -> (same: bool)
    requires
        i <= seq@.len(),
    ensures
        same == (symbol_of(*token) == symbol_at(texts(seq@), i as int)),
{
    match token {
        Some(s) => i < seq.len() && *s == seq[i],
        None => i >= seq.len(),
    }
}

/// Looks for the row of the window `seq[start..end]`.
fn find_row_in(table: &Vec<Transition>, seq: &Vec<String>, start: usize, end: usize) -> (found:
    Option<usize>)
    requires
        start <= end <= seq@.len(),
    ensures
        match found {
            Some(i) => i < table@.len() && find_row(
                rows_of(table@),
                texts(seq@).subrange(start as int, end as int),
                table@.len() as int,
            ) == Some(i as int),
            None => find_row(
                rows_of(table@),
                texts(seq@).subrange(start as int, end as int),
                table@.len() as int,
            ).is_none(),
        },
{
    let ghost window = texts(seq@).subrange(start as int, end as int);
    let ghost rows = rows_of(table@);
    let mut i: usize = 0;
    while i < table.len()
        invariant
            i <= table@.len(),
            start <= end <= seq@.len(),
            rows == rows_of(table@),
            window == texts(seq@).subrange(start as int, end as int),
            find_row(rows, window, i as int).is_none(),
        decreases table@.len() - i,
    {
        if same_window(&table[i].context, seq, start, end) {
            assert(rows[i as int].0 == window);
            proof {
                lemma_find_row_stays(rows, window, i + 1, table@.len() as int);
            }
            return Some(i);
        }
        assert(rows[i as int].0 != window);
        i += 1;
    }
    None
}

/// Looks for the follower that stands at position `i` of `seq`.
fn find_symbol_in(successors: &Vec<Successor>, seq: &Vec<String>, i: usize) -> (found: Option<
    usize,
>)
    requires
        i <= seq@.len(),
    ensures
        match found {
            Some(j) => j < successors@.len() && find_symbol(
                followers_of(successors@),
                symbol_at(texts(seq@), i as int),
                successors@.len() as int,
            ) == Some(j as int),
            None => find_symbol(
                followers_of(successors@),
                symbol_at(texts(seq@), i as int),
                successors@.len() as int,
            ).is_none(),
        },
{
    let ghost sym = symbol_at(texts(seq@), i as int);
    let ghost followers = followers_of(successors@);
    let mut j: usize = 0;
    while j < successors.len()
        invariant
            j <= successors@.len(),
            i <= seq@.len(),
            followers == followers_of(successors@),
            sym == symbol_at(texts(seq@), i as int),
            find_symbol(followers, sym, j as int).is_none(),
        decreases successors@.len() - j,
    {
        if same_symbol(&successors[j].token, seq, i) {
            assert(followers[j as int].0 == sym);
            proof {
                lemma_find_symbol_stays(followers, sym, j + 1, successors@.len() as int);
            }
            return Some(j);
        }
        assert(followers[j as int].0 != sym);
        j += 1;
    }
    None
}

/// A row once found stays found when more rows are searched.
pub proof fn lemma_find_row_stays(rows: Seq<Row>, ctx: Seq<Token>, k: int, more: int)
    requires
        find_row(rows, ctx, k).is_some(),
        k <= more,
    ensures
        find_row(rows, ctx, more) == find_row(rows, ctx, k),
    decreases more - k,
{
    if k < more {
        lemma_find_row_stays(rows, ctx, k, more - 1);
    }
}

/// A follower once found stays found when more followers are searched.
pub proof fn lemma_find_symbol_stays(followers: Followers, sym: Symbol, k: int, more: int)
    requires
        find_symbol(followers, sym, k).is_some(),
        k <= more,
    ensures
        find_symbol(followers, sym, more) == find_symbol(followers, sym, k),
    decreases more - k,
{
    if k < more {
        lemma_find_symbol_stays(followers, sym, k, more - 1);
    }
}

/// The sum never exceeds the number of followers times the largest count.
proof fn lemma_weight_bound(followers: Followers, k: int)
    requires
        0 <= k <= followers.len(),
        forall|j: int| 0 <= j < followers.len() ==> (#[trigger] followers[j]).1 <= u64::MAX,
    ensures
        weight_sum(followers, k) <= k * u64::MAX,
    decreases k,
{
    if k > 0 {
        lemma_weight_bound(followers, k - 1);
        assert((k - 1) * u64::MAX + u64::MAX == k * u64::MAX) by (nonlinear_arith);
    }
}

/// The sum grows with the number of followers counted.
proof fn lemma_weight_grows(followers: Followers, k: int, more: int)
    requires
        k <= more,
    ensures
        weight_sum(followers, k) <= weight_sum(followers, more),
    decreases more - k,
{
    if k < more {
        lemma_weight_grows(followers, k, more - 1);
    }
}

/// The sum of all counts.
fn total_weight(successors: &Vec<Successor>) -> (total: u128)
    ensures
        total == weight_sum(followers_of(successors@), successors@.len() as int),
{
    let ghost followers = followers_of(successors@);
    let mut total: u128 = 0;
    let mut j: usize = 0;
    while j < successors.len()
        invariant
            j <= successors@.len(),
            followers == followers_of(successors@),
            total == weight_sum(followers, j as int),
        decreases successors@.len() - j,
    {
        proof {
            lemma_weight_bound(followers, j + 1);
            assert((j + 1) * u64::MAX <= u64::MAX * u64::MAX) by (nonlinear_arith)
                requires
                    j + 1 <= u64::MAX,
            ;
        }
        total = total + successors[j].count as u128;
        j += 1;
    }
    total
}

/// The follower into whose stretch `draw` falls.
fn select(successors: &Vec<Successor>, draw: u128) -> (j: usize)
    requires
        draw < weight_sum(followers_of(successors@), successors@.len() as int),
    ensures
        j < successors@.len(),
        j == select_from(followers_of(successors@), draw as int, 0),
{
    let ghost followers = followers_of(successors@);
    let len: usize = successors.len();
    let mut rest: u128 = draw;
    let mut j: usize = 0;
    while rest >= successors[j].count as u128
        invariant
            j < successors@.len(),
            len == successors@.len(),
            followers == followers_of(successors@),
            rest + weight_sum(followers, j as int) < weight_sum(followers, followers.len() as int),
            select_from(followers, draw as int, 0) == select_from(followers, rest as int, j as int),
        decreases successors@.len() - j,
    {
        proof {
            lemma_weight_grows(followers, j + 1, followers.len() as int);
            if j + 1 == followers.len() {
                assert(false);
            }
        }
        rest = rest - successors[j].count as u128;
        j += 1;
    }
    j
}

impl Chain {
    /// The table.
    pub closed spec fn rows(&self) -> Seq<Row> {
        rows_of(self.table@)
    }

    /// The number of tokens that a context holds at most.
    pub closed spec fn order(&self) -> nat {
        self.order as nat
    }

    /// A chain needs a context of one token at least.
    pub open spec fn wf(&self) -> bool {
        self.order() >= 1
    }

    /// An untrained chain of the given order.
    pub fn new(order: usize) -> (chain: Chain)
        requires
            order >= 1,
        ensures
            chain.wf(),
            chain.order() == order,
            chain.rows() == Seq::<Row>::empty(),
    {
        let chain = Chain { order, table: Vec::new() };
        assert(chain.rows() =~= Seq::<Row>::empty());
        chain
    }

    /// The order the chain was made with.
    pub fn context_order(&self) -> (order: usize)
        ensures
            order == self.order(),
    {
        self.order
    }

    /// How often `follower` was seen behind `context`; `None` asks for the
    /// end of a sequence.
    pub fn seen(&self, context: &Vec<String>, follower: &Option<String>) -> (count: u64)
        ensures
            count == tally(self.rows(), texts(context@), symbol_of(*follower)),
    {
        let ghost ctx = texts(context@);
        assert(ctx.subrange(0, ctx.len() as int) =~= ctx);
        match find_row_in(&self.table, context, 0, context.len()) {
            None => 0,
            Some(i) => {
                let successors = &self.table[i].successors;
                let ghost followers = followers_of(successors@);
                let ghost sym = symbol_of(*follower);
                assert(followers == self.rows()[i as int].1);
                let mut j: usize = 0;
                while j < successors.len()
                    invariant
                        j <= successors@.len(),
                        followers == followers_of(successors@),
                        followers == self.rows()[i as int].1,
                        find_row(self.rows(), texts(context@), self.rows().len() as int) == Some(
                            i as int,
                        ),
                        sym == symbol_of(*follower),
                        find_symbol(followers, sym, j as int).is_none(),
                    decreases successors@.len() - j,
                {
                    let same: bool = match (&successors[j].token, follower) {
                        (Some(a), Some(b)) => *a == *b,
                        (None, None) => true,
                        _ => false,
                    };
                    assert(same == (followers[j as int].0 == sym));
                    if same {
                        proof {
                            lemma_find_symbol_stays(followers, sym, j + 1, successors@.len() as int);
                        }
                        return successors[j].count;
                    }
                    j += 1;
                }
                0
            },
        }
    }

    /// Counts one sighting: what stands at `end` of `seq`, behind the window
    /// `seq[start..end]`.
    fn note(&mut self, seq: &Vec<String>, start: usize, end: usize)
        requires
            start <= end <= seq@.len(),
        ensures
            final(self).order() == old(self).order(),
            final(self).rows() == observe(
                old(self).rows(),
                texts(seq@).subrange(start as int, end as int),
                symbol_at(texts(seq@), end as int),
            ),
    {
        let ghost window = texts(seq@).subrange(start as int, end as int);
        let ghost sym = symbol_at(texts(seq@), end as int);
        let ghost before = self.rows();
        let token: Option<String> = if end < seq.len() {
            Some(seq[end].clone())
        } else {
            None
        };
        assert(symbol_of(token) == sym);
        match find_row_in(&self.table, seq, start, end) {
            None => {
                let mut context: Vec<String> = Vec::new();
                let mut t: usize = start;
                while t < end
                    invariant
                        start <= t <= end <= seq@.len(),
                        context@.len() == t - start,
                        forall|u: int|
                            0 <= u < context@.len() ==> (#[trigger] context@[u])@ == seq@[start + u]@,
                    decreases end - t,
                {
                    context.push(seq[t].clone());
                    t += 1;
                }
                assert(texts(context@) =~= window);
                let mut successors: Vec<Successor> = Vec::new();
                successors.push(Successor { token, count: 1 });
                assert(followers_of(successors@) =~= seq![(sym, 1nat)]);
                self.table.push(Transition { context, successors });
                assert(self.rows() =~= before.push((window, seq![(sym, 1nat)])));
            },
            Some(i) => {
                let ghost old_followers = before[i as int].1;
                assert(before[i as int].0 == window) by {
                    lemma_find_row_hit(before, window, before.len() as int);
                }
                let found = find_symbol_in(&self.table[i].successors, seq, end);
                let row: &mut Transition = &mut self.table[i];
                match found {
                    None => {
                        row.successors.push(Successor { token, count: 1 });
                        assert(followers_of(row.successors@) =~= old_followers.push((sym, 1nat)));
                    },
                    Some(j) => {
                        assert(old_followers[j as int].0 == sym) by {
                            lemma_find_symbol_hit(old_followers, sym, old_followers.len() as int);
                        }
                        let slot: &mut Successor = &mut row.successors[j];
                        if slot.count < u64::MAX {
                            slot.count = slot.count + 1;
                        }
                        assert(followers_of(row.successors@) =~= old_followers.update(
                            j as int,
                            (sym, bump(old_followers[j as int].1)),
                        ));
                    },
                }
                assert(self.rows() =~= observe(before, window, sym));
            },
        }
    }

    /// Learns one sequence: every token is counted behind the tokens before
    /// it, and the end of the sequence behind its last tokens.
    pub fn train(&mut self, seq: &Vec<String>)
        requires
            old(self).wf(),
        ensures
            final(self).wf(),
            final(self).order() == old(self).order(),
            final(self).rows() == trained(old(self).rows(), old(self).order(), texts(seq@)),
    {
        let ghost start_rows = self.rows();
        let ghost order = self.order();
        let ghost tokens = texts(seq@);
        let mut i: usize = 0;
        while i < seq.len()
            invariant
                i <= seq@.len(),
                tokens == texts(seq@),
                self.order() == order,
                order >= 1,
                self.rows() == train_upto(start_rows, order, tokens, i as int),
            decreases seq@.len() - i,
        {
            let start: usize = if i > self.order {
                i - self.order
            } else {
                0
            };
            self.note(seq, start, i);
            i += 1;
        }
        let start: usize = if i > self.order {
            i - self.order
        } else {
            0
        };
        self.note(seq, start, i);
    }

    /// Learns a corpus, one sequence after the other. A sequence without
    /// tokens stands for a path that could not be walked and is passed over.
    pub fn train_corpus(&mut self, corpus: &Vec<Vec<String>>)
        requires
            old(self).wf(),
        ensures
            final(self).wf(),
            final(self).order() == old(self).order(),
            final(self).rows() == trained_all(
                old(self).rows(),
                old(self).order(),
                corpus_texts(corpus@),
                corpus@.len() as int,
            ),
    {
        let ghost start_rows = self.rows();
        let ghost order = self.order();
        let ghost all = corpus_texts(corpus@);
        let mut i: usize = 0;
        while i < corpus.len()
            invariant
                i <= corpus@.len(),
                all == corpus_texts(corpus@),
                self.order() == order,
                self.wf(),
                self.rows() == trained_all(start_rows, order, all, i as int),
            decreases corpus@.len() - i,
        {
            assert(all[i as int] == texts(corpus@[i as int]@));
            if corpus[i].len() > 0 {
                self.train(&corpus[i]);
            }
            i += 1;
        }
    }

    /// Generates a sequence of at most `max_len` tokens, drawing from `rng`.
    pub fn generate(&self, rng: &mut Rng, max_len: usize) -> (out: Vec<String>)
        requires
            self.wf(),
        ensures
            texts(out@) == generate_from(
                self.rows(),
                self.order(),
                old(rng).state(),
                Seq::empty(),
                max_len as nat,
            ).0,
            final(rng).state() == generate_from(
                self.rows(),
                self.order(),
                old(rng).state(),
                Seq::empty(),
                max_len as nat,
            ).1,
            out@.len() <= max_len,
    {
        let ghost rows = self.rows();
        let ghost order = self.order();
        let ghost goal = generate_from(rows, order, rng.state(), Seq::empty(), max_len as nat);
        let mut out: Vec<String> = Vec::new();
        let mut open: bool = true;
        assert(texts(out@) =~= Seq::<Token>::empty());
        while open && out.len() < max_len
            invariant
                out@.len() <= max_len,
                rows == self.rows(),
                order == self.order(),
                goal == generate_from(
                    rows,
                    order,
                    rng.state(),
                    texts(out@),
                    if open {
                        (max_len - out@.len()) as nat
                    } else {
                        0
                    },
                ),
            decreases
                    max_len - out@.len() + if open {
                        1nat
                    } else {
                        0nat
                    },
        {
            let end: usize = out.len();
            let start: usize = if end > self.order {
                end - self.order
            } else {
                0
            };
            assert(texts(out@).subrange(start as int, end as int) == context_at(
                texts(out@),
                out@.len() as int,
                order,
            ));
            match find_row_in(&self.table, &out, start, end) {
                None => {
                    open = false;
                },
                Some(i) => {
                    let successors = &self.table[i].successors;
                    assert(followers_of(successors@) == rows[i as int].1);
                    let total: u128 = total_weight(successors);
                    if total == 0 {
                        open = false;
                    } else {
                        let wide: u128 = rng.next_u128();
                        let j: usize = select(successors, wide % total);
                        assert(symbol_of(successors@[j as int].token) == rows[i as int].1[j as int].0);
                        match &successors[j].token {
                            None => {
                                open = false;
                            },
                            Some(token) => {
                                let ghost grown = texts(out@).push(token@);
                                out.push(token.clone());
                                assert(texts(out@) =~= grown);
                            },
                        }
                    }
                },
            }
        }
        out
    }
}

/// A row that is found holds the context looked for.
pub proof fn lemma_find_row_hit(rows: Seq<Row>, ctx: Seq<Token>, k: int)
    requires
        k <= rows.len(),
    ensures
        match find_row(rows, ctx, k) {
            Some(i) => 0 <= i < k && rows[i].0 == ctx,
            None => forall|i: int| 0 <= i < k ==> (#[trigger] rows[i]).0 != ctx,
        },
    decreases k,
{
    if k > 0 {
        lemma_find_row_hit(rows, ctx, k - 1);
    }
}

/// A follower that is found is the symbol looked for.
pub proof fn lemma_find_symbol_hit(followers: Followers, sym: Symbol, k: int)
    requires
        k <= followers.len(),
    ensures
        match find_symbol(followers, sym, k) {
            Some(j) => 0 <= j < k && followers[j].0 == sym,
            None => forall|j: int| 0 <= j < k ==> (#[trigger] followers[j]).0 != sym,
        },
    decreases k,
{
    if k > 0 {
        lemma_find_symbol_hit(followers, sym, k - 1);
    }
}

/// Searching two tables with the same contexts gives the same row.
proof fn lemma_find_row_by_context(rows: Seq<Row>, other: Seq<Row>, ctx: Seq<Token>, k: int)
    requires
        k <= rows.len(),
        k <= other.len(),
        forall|t: int| 0 <= t < k ==> (#[trigger] rows[t]).0 == other[t].0,
    ensures
        find_row(rows, ctx, k) == find_row(other, ctx, k),
    decreases k,
{
    if k > 0 {
        lemma_find_row_by_context(rows, other, ctx, k - 1);
        assert(rows[k - 1].0 == other[k - 1].0);
    }
}

/// Searching two follower lists with the same symbols gives the same place.
proof fn lemma_find_symbol_by_symbol(followers: Followers, other: Followers, sym: Symbol, k: int)
    requires
        k <= followers.len(),
        k <= other.len(),
        forall|t: int| 0 <= t < k ==> (#[trigger] followers[t]).0 == other[t].0,
    ensures
        find_symbol(followers, sym, k) == find_symbol(other, sym, k),
    decreases k,
{
    if k > 0 {
        lemma_find_symbol_by_symbol(followers, other, sym, k - 1);
        assert(followers[k - 1].0 == other[k - 1].0);
    }
}

/// One sighting raises one count by one and leaves every other count as
/// it was.
pub proof fn lemma_observe_counts(
    rows: Seq<Row>,
    ctx: Seq<Token>,
    sym: Symbol,
    other_ctx: Seq<Token>,
    other_sym: Symbol,
)
    ensures
        tally(observe(rows, ctx, sym), other_ctx, other_sym) == if other_ctx == ctx && other_sym
            == sym {
            bump(tally(rows, ctx, sym))
        } else {
            tally(rows, other_ctx, other_sym)
        },
{
    let next = observe(rows, ctx, sym);
    let len = rows.len() as int;
    lemma_find_row_hit(rows, ctx, len);
    lemma_find_row_hit(rows, other_ctx, len);
    match find_row(rows, ctx, len) {
        None => {
            lemma_find_row_by_context(rows, next, other_ctx, len);
            assert(next[len] == (ctx, seq![(sym, 1nat)]));
            let only = seq![(sym, 1nat)];
            assert(find_symbol(only, other_sym, 0).is_none());
            if other_ctx == ctx {
                assert(find_row(next, other_ctx, len + 1) == Some(len));
            } else if find_row(rows, other_ctx, len).is_some() {
                lemma_find_row_stays(next, other_ctx, len, len + 1);
            }
        },
        Some(i) => {
            lemma_find_row_by_context(rows, next, other_ctx, len);
            let followers = rows[i].1;
            let width = followers.len() as int;
            lemma_find_symbol_hit(followers, sym, width);
            lemma_find_symbol_hit(followers, other_sym, width);
            if other_ctx == ctx {
                let grown = next[i].1;
                match find_symbol(followers, sym, width) {
                    None => {
                        lemma_find_symbol_by_symbol(followers, grown, other_sym, width);
                        assert(grown[width] == (sym, 1nat));
                        if other_sym != sym && find_symbol(followers, other_sym, width).is_some() {
                            lemma_find_symbol_stays(grown, other_sym, width, width + 1);
                        }
                    },
                    Some(j) => {
                        lemma_find_symbol_by_symbol(followers, grown, other_sym, width);
                    },
                }
            } else {
                let at = find_row(rows, other_ctx, len);
                if at.is_some() {
                    assert(next[at.unwrap()] == rows[at.unwrap()]);
                }
            }
        },
    }
}

/// How often `sym` stands behind `ctx` among the first `upto` positions of
/// `seq`; the position behind the last token holds the end.
pub open spec fn occurrences(
    seq: Seq<Token>,
    order: nat,
    ctx: Seq<Token>,
    sym: Symbol,
    upto: int,
) -> nat
    decreases upto,
{
    if upto <= 0 {
        0
    } else if context_at(seq, upto - 1, order) == ctx && symbol_at(seq, upto - 1) == sym {
        occurrences(seq, order, ctx, sym, upto - 1) + 1
    } else {
        occurrences(seq, order, ctx, sym, upto - 1)
    }
}

/// A count that a counter can hold: the sum itself, or the largest value
/// where the sum exceeds it.
pub open spec fn capped(sum: nat) -> nat {
    if sum <= u64::MAX {
        sum
    } else {
        u64::MAX as nat
    }
}

/// Training adds to every count the number of times the follower stands
/// behind the context in the sequence, up to the largest value a counter
/// holds.
pub proof fn lemma_training_counts(
    rows: Seq<Row>,
    order: nat,
    seq: Seq<Token>,
    ctx: Seq<Token>,
    sym: Symbol,
    upto: int,
)
    requires
        tally(rows, ctx, sym) <= u64::MAX,
    ensures
        tally(train_upto(rows, order, seq, upto), ctx, sym) == capped(
            tally(rows, ctx, sym) + occurrences(seq, order, ctx, sym, upto),
        ),
    decreases upto,
{
    if upto > 0 {
        lemma_training_counts(rows, order, seq, ctx, sym, upto - 1);
        lemma_observe_counts(
            train_upto(rows, order, seq, upto - 1),
            context_at(seq, upto - 1, order),
            symbol_at(seq, upto - 1),
            ctx,
            sym,
        );
    }
}

/// The counts do not depend on the order of two sightings.
pub proof fn lemma_sightings_commute(
    rows: Seq<Row>,
    ctx: Seq<Token>,
    sym: Symbol,
    other_ctx: Seq<Token>,
    other_sym: Symbol,
    asked_ctx: Seq<Token>,
    asked_sym: Symbol,
)
    ensures
        tally(observe(observe(rows, ctx, sym), other_ctx, other_sym), asked_ctx, asked_sym)
            == tally(observe(observe(rows, other_ctx, other_sym), ctx, sym), asked_ctx, asked_sym),
{
    lemma_observe_counts(rows, ctx, sym, asked_ctx, asked_sym);
    lemma_observe_counts(rows, ctx, sym, other_ctx, other_sym);
    lemma_observe_counts(observe(rows, ctx, sym), other_ctx, other_sym, asked_ctx, asked_sym);
    lemma_observe_counts(rows, other_ctx, other_sym, asked_ctx, asked_sym);
    lemma_observe_counts(rows, other_ctx, other_sym, ctx, sym);
    lemma_observe_counts(observe(rows, other_ctx, other_sym), ctx, sym, asked_ctx, asked_sym);
}

/// A chain that has seen nothing generates nothing and draws nothing.
pub proof fn lemma_untrained_is_silent(order: nat, state: u64, fuel: nat)
    ensures
        generate_from(Seq::empty(), order, state, Seq::empty(), fuel) == (
            Seq::<Token>::empty(),
            state,
        ),
{
    let rows = Seq::<Row>::empty();
    let ctx = context_at(Seq::<Token>::empty(), 0, order);
    assert(find_row(rows, ctx, 0).is_none());
}

/// A chain trained on the empty corpus, or on sequences without tokens
/// only, generates nothing.
pub proof fn lemma_empty_corpus_is_silent(
    order: nat,
    corpus: Seq<Seq<Token>>,
    upto: int,
    state: u64,
    fuel: nat,
)
    requires
        0 <= upto <= corpus.len(),
        forall|i: int| 0 <= i < upto ==> (#[trigger] corpus[i]).len() == 0,
    ensures
        trained_all(Seq::empty(), order, corpus, upto) == Seq::<Row>::empty(),
        generate_from(
            trained_all(Seq::empty(), order, corpus, upto),
            order,
            state,
            Seq::empty(),
            fuel,
        ) == (Seq::<Token>::empty(), state),
    decreases upto,
{
    if upto > 0 {
        lemma_empty_corpus_is_silent(order, corpus, upto - 1, state, fuel);
    }
    lemma_untrained_is_silent(order, state, fuel);
}

/// Generation is a function of the table, the order, the seed and the
/// length limit: the same seed gives the same sequence and leaves the
/// generator in the same state.
pub proof fn lemma_same_seed_same_sequence(
    rows: Seq<Row>,
    order: nat,
    seed: u64,
    again: u64,
    max_len: nat,
)
    requires
        seed == again,
    ensures
        generate_from(rows, order, seed, Seq::empty(), max_len) == generate_from(
            rows,
            order,
            again,
            Seq::empty(),
            max_len,
        ),
{
}

/// The table offers `sym` behind `ctx`: some row of that context counts
/// `sym` at least once.
pub open spec fn offered(rows: Seq<Row>, ctx: Seq<Token>, sym: Symbol) -> bool {
    exists|i: int, j: int|
        0 <= i < rows.len() && 0 <= j < rows[i].1.len() && rows[i].0 == ctx && (
        #[trigger] rows[i].1[j]).0 == sym && rows[i].1[j].1 > 0
}

/// A draw below the sum of the counts from `i` on selects a follower with a
/// count above zero.
pub proof fn lemma_select_in_range(followers: Followers, draw: int, i: int)
    requires
        0 <= i <= followers.len(),
        0 <= draw < weight_sum(followers, followers.len() as int) - weight_sum(followers, i),
    ensures
        i <= select_from(followers, draw, i) < followers.len(),
        followers[select_from(followers, draw, i)].1 > 0,
    decreases followers.len() - i,
{
    if i < followers.len() {
        lemma_weight_grows(followers, i + 1, followers.len() as int);
        if draw >= followers[i].1 {
            lemma_select_in_range(followers, draw - followers[i].1, i + 1);
        }
    }
}

/// Every token that generation adds was offered by the table behind the
/// tokens before it: what is generated was seen in training, step by step.
/// What stood in the sequence before stays as it was.
pub proof fn lemma_generated_was_offered(
    rows: Seq<Row>,
    order: nat,
    state: u64,
    out: Seq<Token>,
    fuel: nat,
    at: int,
)
    ensures
        out.len() <= generate_from(rows, order, state, out, fuel).0.len(),
        generate_from(rows, order, state, out, fuel).0.subrange(0, out.len() as int) == out,
        out.len() <= at < generate_from(rows, order, state, out, fuel).0.len() ==> offered(
            rows,
            context_at(generate_from(rows, order, state, out, fuel).0, at, order),
            Some(generate_from(rows, order, state, out, fuel).0[at]),
        ),
    decreases fuel,
{
    let result = generate_from(rows, order, state, out, fuel).0;
    assert(out.subrange(0, out.len() as int) =~= out);
    if fuel > 0 {
        let ctx = context_at(out, out.len() as int, order);
        match find_row(rows, ctx, rows.len() as int) {
            None => {},
            Some(i) => {
                lemma_find_row_hit(rows, ctx, rows.len() as int);
                let followers = rows[i].1;
                let total = weight_sum(followers, followers.len() as int);
                if total != 0 {
                    let draw = (wide_draw(state) as int) % (total as int);
                    lemma_select_in_range(followers, draw, 0);
                    let j = select_from(followers, draw, 0);
                    match followers[j].0 {
                        None => {},
                        Some(token) => {
                            let grown = out.push(token);
                            lemma_generated_was_offered(
                                rows,
                                order,
                                advance(advance(state)),
                                grown,
                                (fuel - 1) as nat,
                                at,
                            );
                            assert(result.subrange(0, out.len() as int) =~= result.subrange(
                                0,
                                grown.len() as int,
                            ).subrange(0, out.len() as int));
                            assert(grown.subrange(0, out.len() as int) =~= out);
                            if at == out.len() {
                                assert(result[at] == result.subrange(0, grown.len() as int)[at]);
                                assert(context_at(result, at, order) =~= ctx);
                                assert(rows[i].1[j].0 == Some(token) && rows[i].1[j].1 > 0);
                            }
                        },
                    }
                }
            },
        }
    }
}

/// Generation never exceeds its length limit.
pub proof fn lemma_generation_bounded(
    rows: Seq<Row>,
    order: nat,
    state: u64,
    out: Seq<Token>,
    fuel: nat,
)
    ensures
        generate_from(rows, order, state, out, fuel).0.len() <= out.len() + fuel,
    decreases fuel,
{
    if fuel > 0 {
        match find_row(rows, context_at(out, out.len() as int, order), rows.len() as int) {
            None => {},
            Some(i) => {
                let followers = rows[i].1;
                let total = weight_sum(followers, followers.len() as int);
                if total != 0 {
                    let j = select_from(followers, (wide_draw(state) as int) % (total as int), 0);
                    match followers[j].0 {
                        None => {},
                        Some(token) => {
                            lemma_generation_bounded(
                                rows,
                                order,
                                advance(advance(state)),
                                out.push(token),
                                (fuel - 1) as nat,
                            );
                        },
                    }
                }
            },
        }
    }
}

} // verus!
