use meshwalk::markov::Chain;
use meshwalk::rng::Rng;

fn tokens(words: &[&str]) -> Vec<String> {
    words.iter().map(|w| w.to_string()).collect()
}

fn some(word: &str) -> Option<String> {
    Some(word.to_string())
}

#[test]
fn generator_gives_the_known_words() {
    let mut rng = Rng::new(0);
    assert_eq!(rng.next_u64(), 0xE220_A839_7B1D_CDAF);
    assert_eq!(rng.next_u64(), 0x6E78_9E6A_A1B9_65F4);
    assert_eq!(rng.next_u64(), 0x06C4_5D18_8009_454F);
}

#[test]
fn wide_word_is_two_words_first_on_top() {
    let mut rng = Rng::new(0);
    assert_eq!(rng.next_u128(), 0xE220_A839_7B1D_CDAF_6E78_9E6A_A1B9_65F4);
    let mut single = Rng::new(0);
    single.next_u64();
    single.next_u64();
    assert_eq!(rng.next_u64(), single.next_u64());
}

#[test]
fn untrained_chain_generates_nothing() {
    let chain = Chain::new(2);
    let mut rng = Rng::new(99);
    assert_eq!(chain.generate(&mut rng, 50), Vec::<String>::new());
    assert_eq!(rng.next_u64(), Rng::new(99).next_u64());
}

#[test]
fn chain_of_empty_sequences_generates_nothing() {
    let mut chain = Chain::new(1);
    chain.train(&vec![]);
    chain.train(&vec![]);
    assert_eq!(chain.seen(&vec![], &None), 2);
    assert_eq!(chain.generate(&mut Rng::new(5), 50), Vec::<String>::new());
}

#[test]
fn training_counts_followers_and_the_end() {
    let mut chain = Chain::new(2);
    chain.train(&tokens(&["a", "b", "a", "b"]));
    assert_eq!(chain.context_order(), 2);
    assert_eq!(chain.seen(&tokens(&[]), &some("a")), 1);
    assert_eq!(chain.seen(&tokens(&["a"]), &some("b")), 1);
    assert_eq!(chain.seen(&tokens(&["a", "b"]), &some("a")), 1);
    assert_eq!(chain.seen(&tokens(&["b", "a"]), &some("b")), 1);
    assert_eq!(chain.seen(&tokens(&["a", "b"]), &None), 1);
    assert_eq!(chain.seen(&tokens(&["b"]), &some("a")), 0);
    assert_eq!(chain.seen(&tokens(&["a", "b"]), &some("b")), 0);
    chain.train(&tokens(&["a", "b"]));
    assert_eq!(chain.seen(&tokens(&["a", "b"]), &None), 2);
    assert_eq!(chain.seen(&tokens(&[]), &some("a")), 2);
}

#[test]
fn a_single_sequence_is_generated_back() {
    let mut chain = Chain::new(1);
    chain.train(&tokens(&["a", "b", "c"]));
    for seed in 0..20 {
        assert_eq!(chain.generate(&mut Rng::new(seed), 10), tokens(&["a", "b", "c"]));
    }
}

#[test]
fn generation_stops_at_the_length_limit() {
    let mut chain = Chain::new(1);
    chain.train(&tokens(&["a", "b", "c"]));
    assert_eq!(chain.generate(&mut Rng::new(3), 2), tokens(&["a", "b"]));
    assert_eq!(chain.generate(&mut Rng::new(3), 0), Vec::<String>::new());
}

#[test]
fn draws_are_weighted_by_count() {
    let mut chain = Chain::new(1);
    chain.train(&tokens(&["a"]));
    chain.train(&tokens(&["b"]));
    chain.train(&tokens(&["b"]));
    chain.train(&tokens(&["b"]));
    // counts after the empty context: a 1, b 3; the draw is the wide word modulo 4
    assert_eq!(chain.generate(&mut Rng::new(0), 10), tokens(&["a"]));
    assert_eq!(chain.generate(&mut Rng::new(1), 10), tokens(&["b"]));
    let mut b = 0;
    for seed in 0..400 {
        if chain.generate(&mut Rng::new(seed), 10) == tokens(&["b"]) {
            b += 1;
        }
    }
    assert!(b > 250 && b < 350);
}

#[test]
fn the_same_seed_gives_the_same_sequence() {
    let mut chain = Chain::new(2);
    chain.train(&tokens(&["a", "b", "a", "c", "a", "b", "d"]));
    chain.train(&tokens(&["b", "a", "d", "a", "c"]));
    for seed in 0..50 {
        let mut first = Rng::new(seed);
        let mut second = Rng::new(seed);
        let one = chain.generate(&mut first, 30);
        let two = chain.generate(&mut second, 30);
        assert_eq!(one, two);
        assert!(one.len() <= 30);
        assert_eq!(first.next_u64(), second.next_u64());
    }
}

#[test]
fn generated_steps_were_seen_in_training() {
    let mut chain = Chain::new(2);
    chain.train(&tokens(&["a", "b", "a", "c", "a", "b", "d"]));
    chain.train(&tokens(&["b", "a", "d", "a", "c"]));
    for seed in 0..50 {
        let out = chain.generate(&mut Rng::new(seed), 30);
        for i in 0..out.len() {
            let start = if i > 2 { i - 2 } else { 0 };
            assert!(chain.seen(&out[start..i].to_vec(), &Some(out[i].clone())) > 0);
        }
    }
}

#[test]
fn an_empty_corpus_leaves_the_chain_silent() {
    let mut chain = Chain::new(3);
    chain.train_corpus(&vec![]);
    assert_eq!(chain.generate(&mut Rng::new(11), 100), Vec::<String>::new());
    chain.train_corpus(&vec![vec![], vec![]]);
    assert_eq!(chain.seen(&vec![], &None), 0);
    assert_eq!(chain.generate(&mut Rng::new(12), 100), Vec::<String>::new());
}

#[test]
fn a_corpus_is_learnt_sequence_by_sequence() {
    let mut chain = Chain::new(1);
    chain.train_corpus(&vec![tokens(&["a", "b"]), vec![], tokens(&["a", "c"]), tokens(&["a", "b"])]);
    let mut one_by_one = Chain::new(1);
    one_by_one.train(&tokens(&["a", "b"]));
    one_by_one.train(&tokens(&["a", "c"]));
    one_by_one.train(&tokens(&["a", "b"]));
    assert_eq!(chain.seen(&tokens(&[]), &some("a")), 3);
    assert_eq!(chain.seen(&tokens(&["a"]), &some("b")), 2);
    assert_eq!(chain.seen(&tokens(&["a"]), &some("c")), 1);
    assert_eq!(chain.seen(&tokens(&["b"]), &None), 2);
    assert_eq!(chain.seen(&tokens(&[]), &None), 0);
    for seed in 0..30 {
        assert_eq!(
            chain.generate(&mut Rng::new(seed), 9),
            one_by_one.generate(&mut Rng::new(seed), 9)
        );
    }
    // behind "a": b 2, c 1; from seed 0 the second wide word is 2 modulo 3, past the share of b
    assert_eq!(chain.generate(&mut Rng::new(0), 9), tokens(&["a", "c"]));
}
