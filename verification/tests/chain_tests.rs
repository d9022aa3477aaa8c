use lipsum::lipsum;
use lipsum::lipsum_title;
use lipsum::lipsum_words;
use lipsum::lipsum_words_with_rng;
use lipsum::is_ascii_punctuation;
use lipsum::MarkovChain;
use rand::SeedableRng;
use rand_chacha::ChaCha20Rng;

#[test]
fn starts_with_lorem_ipsum() {
    assert_eq!(&lipsum(10)[..11], "Lorem ipsum");
}

#[test]
fn generate_zero_words() {
    assert_eq!(lipsum(0).split_whitespace().count(), 0);
}

#[test]
fn generate_one_word() {
    assert_eq!(lipsum(1).split_whitespace().count(), 1);
}

#[test]
fn generate_two_words() {
    assert_eq!(lipsum(2).split_whitespace().count(), 2);
}

#[test]
fn starts_differently() {
    // Check that calls to lipsum_words with independently seeded random
    // sources don't always start with the same words.
    let mut rng_a = ChaCha20Rng::from_rng(rand::thread_rng()).unwrap();
    let mut rng_b = ChaCha20Rng::from_rng(rand::thread_rng()).unwrap();
    let idx = "Lorem ipsum".len();
    assert_ne!(
        &lipsum_words_with_rng(&mut rng_a, 5)[..idx],
        &lipsum_words_with_rng(&mut rng_b, 5)[..idx]
    );
}

#[test]
fn generate_title() {
    for word in lipsum_title().split_whitespace() {
        assert!(
            !word.starts_with(is_ascii_punctuation) && !word.ends_with(is_ascii_punctuation),
            "Unexpected punctuation: {:?}",
            word
        );
        if word.len() > 3 {
            assert!(
                word.starts_with(char::is_uppercase),
                "Expected small word to be capitalized: {:?}",
                word
            );
        }
    }
}

#[test]
fn title_word_count_in_range() {
    let n = lipsum_title().split_whitespace().count();
    assert!(3 <= n && n <= 7, "unexpected title length: {}", n);
}

#[test]
fn empty_chain() {
    let chain = MarkovChain::new();
    assert_eq!(chain.generate(10), "");
}

#[test]
fn generate_from() {
    let mut chain = MarkovChain::new();
    chain.learn("red orange yellow green blue indigo violet");
    assert_eq!(
        chain.generate_from(5, ("orange", "yellow")),
        "Orange yellow green blue indigo."
    );
}

#[test]
fn generate_last_bigram() {
    // The bigram "yyy zzz" is not a key of the chain, and so the chain
    // will not generate "xxx yyy zzz" as one would expect: it moves from
    // state "xxx yyy" to "yyy zzz", sees that as an invalid state, and
    // resets itself back to "xxx yyy".
    let mut chain = MarkovChain::new();
    chain.learn("xxx yyy zzz");
    assert_ne!(chain.generate_from(3, ("xxx", "yyy")), "xxx yyy zzz");
}

#[test]
fn generate_from_no_panic() {
    // No panic when asked to generate a chain from a starting point that
    // doesn't exist in the chain.
    let mut chain = MarkovChain::new();
    chain.learn("foo bar baz");
    chain.generate_from(3, ("xxx", "yyy"));
}

#[test]
fn chain_map() {
    let mut chain = MarkovChain::new();
    chain.learn("foo bar baz quuz");

    assert_eq!(chain.len(), 2);
    assert_eq!(chain.words(("foo", "bar")), Some(&vec![String::from("baz")]));
    assert_eq!(chain.words(("bar", "baz")), Some(&vec![String::from("quuz")]));
}

#[test]
fn new_with_rng() {
    let mut rng = ChaCha20Rng::seed_from_u64(1234);
    let mut chain = MarkovChain::new();
    chain.learn("foo bar x y z");
    chain.learn("foo bar a b c");

    assert_eq!(
        chain.generate_with_rng(&mut rng, 15),
        "A b bar a b a b bar a b x y b y x."
    );
}

#[test]
fn seeded_jumps() {
    let mut chain = MarkovChain::new();
    chain.learn("infra-red red orange yellow green blue indigo x-ray");

    let mut rng = ChaCha20Rng::seed_from_u64(0);

    // The chain jumps consistently like this:
    assert_eq!(chain.generate_with_rng(&mut rng, 1), "Orange.");
    assert_eq!(chain.generate_with_rng(&mut rng, 1), "Infra-red.");
    assert_eq!(chain.generate_with_rng(&mut rng, 1), "Yellow.");
}

#[test]
fn lipsum_with_rng_starts_with_lorem_ipsum() {
    let mut rng = ChaCha20Rng::seed_from_u64(42);
    let text = lipsum::lipsum_with_rng(&mut rng, 10);
    assert_eq!(&text[..11], "Lorem ipsum");
    let mut again = ChaCha20Rng::seed_from_u64(42);
    assert_eq!(lipsum::lipsum_with_rng(&mut again, 10), text);
}

#[test]
fn deterministic_with_seed() {
    let mut chain = MarkovChain::new();
    chain.learn("red orange yellow green blue indigo violet red orange yellow");
    let first = chain.generate_with_rng(&mut ChaCha20Rng::seed_from_u64(7), 12);
    let second = chain.generate_with_rng(&mut ChaCha20Rng::seed_from_u64(7), 12);
    assert_eq!(first, second);
    assert_eq!(lipsum(25), lipsum(25));
    assert_eq!(lipsum_words(13), lipsum_words(13));
}

#[test]
fn word_count_matches_request() {
    for n in [0usize, 1, 2, 3, 5, 17, 40] {
        assert_eq!(lipsum_words(n).split_whitespace().count(), n);
        assert_eq!(lipsum(n).split_whitespace().count(), n);
    }
    let mut chain = MarkovChain::new();
    chain.learn("alpha beta gamma delta epsilon zeta");
    for n in [1usize, 2, 6, 11] {
        assert_eq!(chain.generate(n).split_whitespace().count(), n);
    }
}

#[test]
fn learn_accumulates() {
    let mut chain = MarkovChain::new();
    assert!(chain.is_empty());
    assert_eq!(chain.len(), 0);

    chain.learn("red green blue");
    assert_eq!(chain.words(("red", "green")), Some(&vec![String::from("blue")]));

    chain.learn("red green yellow");
    assert_eq!(
        chain.words(("red", "green")),
        Some(&vec![String::from("blue"), String::from("yellow")])
    );
    assert_eq!(chain.words(("foo", "bar")), None);
    assert!(!chain.is_empty());
}

#[test]
fn default_is_empty() {
    let chain = MarkovChain::default();
    assert!(chain.is_empty());
    assert_eq!(chain.generate(5), "");
}

#[test]
fn short_text_is_no_op() {
    let mut chain = MarkovChain::new();
    chain.learn("one two");
    assert!(chain.is_empty());
    assert_eq!(chain.len(), 0);
    chain.learn("   ");
    assert!(chain.is_empty());
}

#[test]
fn single_successor_continuation() {
    // Every bigram of this text has exactly one successor, so the walk is
    // deterministic whatever the random source does.
    let mut chain = MarkovChain::new();
    chain.learn("foo bar baz quuz");
    let mut rng = ChaCha20Rng::seed_from_u64(99);
    assert_eq!(
        chain.generate_with_rng_from(&mut rng, 3, ("foo", "bar")),
        "Foo bar baz."
    );
}
