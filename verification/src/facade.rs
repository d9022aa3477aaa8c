//! Convenience entry points backed by the built-in corpora.
//!
//! Each call builds the default chain afresh from the two embedded texts
//! and generates from it; the chain is a pure value, so callers that need
//! to amortize the construction can hold a [`MarkovChain`] of their own.

use crate::chain::is_walk;
use crate::chain::lemma_generate_from_word_count;
use crate::chain::lemma_learn_table_wf;
use crate::chain::table_wf;
use crate::chain::title_word_ok;
use crate::chain::titleable;
use crate::chain::walk_words;
use crate::chain::BigramKey;
use crate::chain::MarkovChain;
use crate::chain::Transitions;
use crate::chain::TITLE_DRAW_LIMIT;
use crate::chain::spec_learn;
use crate::corpus::LIBER_PRIMUS;
use crate::corpus::LOREM_IPSUM;
use crate::format::spec_join_words;
use crate::format::spec_title_join;
use crate::format::title_case_join;
use crate::rng::default_rng;
use crate::rng::rng_range;
use crate::text::is_white;
use crate::text::lemma_tokenize_word_like;
use crate::text::spec_tokenize;
use crate::text::word_like;
use vstd::prelude::*;

verus! {

/// Minimum number of words to include in a title.
const TITLE_MIN_WORDS: usize = 3;

/// Maximum number of words to include in a title.
const TITLE_MAX_WORDS: usize = 8;

/// The transition table that learning the two built-in corpora yields,
/// the short text first.
pub open spec fn default_table() -> Transitions {
    spec_learn(
        spec_learn(Map::empty(), spec_tokenize(LOREM_IPSUM@)),
        spec_tokenize(LIBER_PRIMUS@),
    )
}

/// The chain generating lorem ipsum text, learned from the built-in
/// corpora. The cost of learning grows with the table, so the smallest
/// text comes first.
fn built_in_chain() -> (c: MarkovChain)
    ensures
        c.wf(),
        c@ == default_table(),
{
    let mut chain = MarkovChain::new();
    chain.learn(LOREM_IPSUM);
    chain.learn(LIBER_PRIMUS);
    chain
}

/// Generate `n` words of lorem ipsum text. The output always starts from
/// the bigram of the two traditional opening words, so with the default
/// seeded generator it is deterministic.
pub fn lipsum(n: usize) -> (r: String)
    ensures
        n == 0 ==> r@ =~= Seq::<char>::empty(),
        default_table().dom().len() == 0 ==> r@ =~= Seq::<char>::empty(),
        default_table().dom().len() > 0 && n > 0 ==> exists|sts: Seq<BigramKey>|
            #[trigger] is_walk(default_table(), ("Lorem"@, "ipsum"@), sts) && sts.len() == n && r@
                == spec_join_words(walk_words(sts)),
{
    let chain = built_in_chain();
    chain.generate_from(n, ("Lorem", "ipsum"))
}

/// Generate `n` words of lorem ipsum text with a custom random source.
/// The output always starts from the bigram of the two traditional
/// opening words; an independently seeded source gives a different
/// continuation on each call.
pub fn lipsum_with_rng(rng: &mut rand_chacha::ChaCha20Rng, n: usize) -> (r: String)
    ensures
        n == 0 ==> r@ =~= Seq::<char>::empty(),
        default_table().dom().len() == 0 ==> r@ =~= Seq::<char>::empty(),
        default_table().dom().len() > 0 && n > 0 ==> exists|sts: Seq<BigramKey>|
            #[trigger] is_walk(default_table(), ("Lorem"@, "ipsum"@), sts) && sts.len() == n && r@
                == spec_join_words(walk_words(sts)),
{
    let chain = built_in_chain();
    chain.generate_with_rng_from(rng, n, ("Lorem", "ipsum"))
}

/// Generate `n` words of lorem ipsum text from a random starting point,
/// deterministically sampled with the default seeded generator.
pub fn lipsum_words(n: usize) -> (r: String)
    ensures
        n == 0 ==> r@ =~= Seq::<char>::empty(),
        default_table().dom().len() == 0 ==> r@ =~= Seq::<char>::empty(),
        default_table().dom().len() > 0 && n > 0 ==> exists|start: BigramKey, sts: Seq<BigramKey>|
            #![trigger is_walk(default_table(), start, sts)]
            default_table().contains_key(start) && is_walk(default_table(), start, sts)
                && sts.len() == n && r@ == spec_join_words(walk_words(sts)),
{
    let chain = built_in_chain();
    chain.generate(n)
}

/// Generate `n` words of lorem ipsum text from a random starting point,
/// with a custom random source.
pub fn lipsum_words_with_rng(rng: &mut rand_chacha::ChaCha20Rng, n: usize) -> (r: String)
    ensures
        n == 0 ==> r@ =~= Seq::<char>::empty(),
        default_table().dom().len() == 0 ==> r@ =~= Seq::<char>::empty(),
        default_table().dom().len() > 0 && n > 0 ==> exists|start: BigramKey, sts: Seq<BigramKey>|
            #![trigger is_walk(default_table(), start, sts)]
            default_table().contains_key(start) && is_walk(default_table(), start, sts)
                && sts.len() == n && r@ == spec_join_words(walk_words(sts)),
{
    let chain = built_in_chain();
    chain.generate_with_rng(rng, n)
}

/// Law: the default table keeps the table invariant — every key and
/// every successor a word, no successor list empty — since both corpora
/// pass through the tokenizer.
pub proof fn lemma_default_table_wf()
    ensures
        table_wf(default_table()),
{
    lemma_tokenize_word_like(LOREM_IPSUM@);
    lemma_tokenize_word_like(LIBER_PRIMUS@);
    let t0 = Map::<BigramKey, Seq<Seq<char>>>::empty();
    lemma_learn_table_wf(t0, spec_tokenize(LOREM_IPSUM@));
    lemma_learn_table_wf(spec_learn(t0, spec_tokenize(LOREM_IPSUM@)), spec_tokenize(LIBER_PRIMUS@));
}

/// Law: the lipsum entry points emit one whitespace-delimited word per
/// requested word: any walk witnessing the contract of `lipsum` or
/// `lipsum_with_rng` gives its output exactly the walk's length in
/// words.
pub proof fn lemma_lipsum_word_count(sts: Seq<BigramKey>, r: Seq<char>)
    requires
        is_walk(default_table(), ("Lorem"@, "ipsum"@), sts),
        r == spec_join_words(walk_words(sts)),
    ensures
        crate::text::spec_tokenize(r).len() == sts.len(),
{
    lemma_default_table_wf();
    assert(word_like("Lorem"@)) by {
        reveal_strlit("Lorem");
        assert(!is_white("Lorem"@[0]));
        assert(!is_white("Lorem"@[1]));
        assert(!is_white("Lorem"@[2]));
        assert(!is_white("Lorem"@[3]));
        assert(!is_white("Lorem"@[4]));
    }
    lemma_generate_from_word_count(default_table(), ("Lorem"@, "ipsum"@), sts, r);
}

/// The words a title may hold, drawn from the table `t`: each one a
/// non-empty punctuation-trimmed word of `t`, and at most seven of them
/// (none at all when the table is empty).
pub open spec fn title_words_from(t: Transitions, ws: Seq<Seq<char>>) -> bool {
    &&& if t.dom().len() == 0 {
        ws.len() == 0
    } else {
        ws.len() < 8
    }
    &&& forall|i: int| 0 <= i < ws.len() ==> title_word_ok(t, #[trigger] ws[i])
}

/// Generate a short lorem ipsum text with words in title case: three to
/// seven words drawn from a random point of the default chain, each
/// stripped of surrounding punctuation, the first word and every word
/// longer than three bytes capitalized. Whenever the default table has
/// keys and none of its words trims to nothing — as holds of the
/// built-in corpora — the title has between three and seven words; only
/// a degenerate chain can yield fewer.
pub fn lipsum_title() -> (r: String)
    ensures
        exists|ws: Seq<Seq<char>>|
            #[trigger] title_words_from(default_table(), ws) && r@ == spec_title_join(ws) && (
            titleable(default_table()) && default_table().dom().len() > 0 ==> 3 <= ws.len() <= 7),
{
    let chain = built_in_chain();
    let mut pick_rng = default_rng();
    let n = rng_range(&mut pick_rng, TITLE_MIN_WORDS, TITLE_MAX_WORDS);
    let words: Vec<String>;
    if chain.is_empty() {
        words = Vec::new();
    } else {
        let mut stream_rng = default_rng();
        proof {
            assert(n <= TITLE_DRAW_LIMIT);
        }
        words = chain.title_words(&mut stream_rng, n);
    }
    let r = title_case_join(&words);
    proof {
        let ws = words.deep_view();
        assert(ws.len() == words@.len());
        assert(title_words_from(default_table(), ws) && r@ == spec_title_join(ws) && (titleable(
            default_table(),
        ) && default_table().dom().len() > 0 ==> 3 <= ws.len() <= 7));
    }
    r
}

} // verus!
