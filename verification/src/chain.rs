//! The order-two Markov chain: a transition table from bigrams to the
//! words observed to follow them, with a deterministically ordered key
//! index for random restarts.
//!
//! The table is held as a vector of entries sorted strictly by key, so the
//! vector is its own key index: position `i` holds the `i`-th key in
//! lexicographic order. Keeping the index sorted makes restart draws
//! reproducible under a seeded random source.

use crate::format::join_words;
use crate::format::spec_join_words;
use crate::rng::default_rng;
use crate::rng::gen_index;
use crate::text::seq_lt;
use crate::text::lemma_seq_lt_irrefl;
use crate::text::lemma_seq_lt_trans;
use crate::text::lemma_seq_lt_total;
use crate::text::str_eq_fn;
use crate::text::str_lt;
use crate::text::word_like;
use vstd::prelude::*;

verus! {

/// A bigram is simply two consecutive words.
pub type Bigram<'a> = (&'a str, &'a str);

/// The most draws a title collection makes before giving up on a chain
/// whose words all trim to nothing.
pub(crate) const TITLE_DRAW_LIMIT: usize = 256;

/// A bigram at the specification level.
pub type BigramKey = (Seq<char>, Seq<char>);

/// The mathematical content of a chain: each learned bigram maps to the
/// sequence of words observed to follow it, duplicates preserved.
pub type Transitions = Map<BigramKey, Seq<Seq<char>>>;

/// Lexicographic order on bigrams: by first word, then by second.
pub open spec fn key_lt(x: BigramKey, y: BigramKey) -> bool {
    seq_lt(x.0, y.0) || (x.0 == y.0 && seq_lt(x.1, y.1))
}

/// Every key and every successor in the table is a word: non-empty and
/// whitespace-free.
pub open spec fn table_wf(t: Transitions) -> bool {
    forall|k: BigramKey| #[trigger]
        t.contains_key(k) ==> word_like(k.0) && word_like(k.1) && t[k].len() > 0 && (forall|j: int|
            0 <= j < t[k].len() ==> word_like(#[trigger] t[k][j]))
}

/// Record one observation: word `c` followed the bigram `(a, b)`.
pub open spec fn spec_record(t: Transitions, a: Seq<char>, b: Seq<char>, c: Seq<char>) -> Transitions {
    let prev = if t.contains_key((a, b)) {
        t[(a, b)]
    } else {
        Seq::empty()
    };
    t.insert((a, b), prev.push(c))
}

/// The table after the first `k` three-word windows of `ws` are recorded.
pub open spec fn spec_learn_upto(t: Transitions, ws: Seq<Seq<char>>, k: int) -> Transitions
    decreases k,
{
    if k <= 0 {
        t
    } else {
        spec_record(spec_learn_upto(t, ws, k - 1), ws[k - 1], ws[k], ws[k + 1])
    }
}

/// The table after all three-word windows of `ws` are recorded: texts of
/// fewer than three words contribute nothing.
pub open spec fn spec_learn(t: Transitions, ws: Seq<Seq<char>>) -> Transitions {
    if ws.len() < 3 {
        t
    } else {
        spec_learn_upto(t, ws, ws.len() - 2)
    }
}

/// One entry of the table: a bigram and its observed successors.
#[derive(Debug, Clone)]
struct Entry {
    a: String,
    b: String,
    succs: Vec<String>,
}

impl Entry {
    /// The entry's bigram.
    spec fn key(&self) -> BigramKey {
        (self.a@, self.b@)
    }

    /// The entry's successors, as sequences of characters.
    spec fn sv(&self) -> Seq<Seq<char>> {
        self.succs.deep_view()
    }
}

/// Simple order two Markov chain implementation: the next word is
/// predicted from the previous two.
#[derive(Debug, Clone)]
pub struct MarkovChain {
    entries: Vec<Entry>,
}

/// The transition table denoted by a sequence of entries.
spec fn entries_map(es: Seq<Entry>) -> Transitions
    decreases es.len(),
{
    if es.len() == 0 {
        Map::empty()
    } else {
        entries_map(es.drop_last()).insert(es.last().key(), es.last().sv())
    }
}

/// No two entries share a key.
spec fn unique_keys(es: Seq<Entry>) -> bool {
    forall|i: int, j: int|
        0 <= i < j < es.len() ==> (#[trigger] es[i]).key() != (#[trigger] es[j]).key()
}

/// Membership, values, and cardinality of the denoted table, for entry
/// sequences without repeated keys.
proof fn lemma_entries_map(es: Seq<Entry>)
    requires
        unique_keys(es),
    ensures
        forall|k: BigramKey| #[trigger]
            entries_map(es).contains_key(k) <==> (exists|i: int|
                0 <= i < es.len() && (#[trigger] es[i]).key() == k),
        forall|i: int|
            0 <= i < es.len() ==> entries_map(es)[(#[trigger] es[i]).key()] == es[i].sv(),
        entries_map(es).dom().finite(),
        entries_map(es).dom().len() == es.len(),
    decreases es.len(),
{
    if es.len() == 0 {
        assert(entries_map(es).dom() =~= Set::<BigramKey>::empty());
    } else {
        let head = es.drop_last();
        let last = es.last();
        assert(unique_keys(head)) by {
            assert(forall|i: int, j: int|
                0 <= i < j < head.len() ==> (#[trigger] head[i]).key() != (#[trigger] head[j]).key())
                by {
                assert(forall|i: int| 0 <= i < head.len() ==> head[i] == es[i]);
            }
        }
        lemma_entries_map(head);
        assert(forall|i: int| 0 <= i < head.len() ==> head[i] == es[i]);
        assert(forall|i: int| 0 <= i < es.len() - 1 ==> es[i].key() != last.key());
        assert(!entries_map(head).contains_key(last.key()));
        assert(entries_map(es).dom() =~= entries_map(head).dom().insert(last.key()));
        vstd::set::axiom_set_insert_finite(entries_map(head).dom(), last.key());
        vstd::set::axiom_set_insert_len(entries_map(head).dom(), last.key());
        assert forall|k: BigramKey| #[trigger]
            entries_map(es).contains_key(k) implies (exists|i: int|
            0 <= i < es.len() && (#[trigger] es[i]).key() == k) by {
            if k == last.key() {
                assert(es[es.len() - 1].key() == k);
            } else {
                let i = choose|i: int| 0 <= i < head.len() && (#[trigger] head[i]).key() == k;
                assert(es[i].key() == k);
            }
        }
        assert forall|k: BigramKey|
            (exists|i: int|
                0 <= i < es.len() && (#[trigger] es[i]).key() == k) implies #[trigger] entries_map(
            es,
        ).contains_key(k) by {
            let i = choose|i: int| 0 <= i < es.len() && (#[trigger] es[i]).key() == k;
            if i < es.len() - 1 {
                assert(head[i].key() == k);
            }
        }
    }
}

/// Replacing the entry at `i` by one with the same key updates only that
/// key's successors.
proof fn lemma_entries_map_update(es: Seq<Entry>, i: int, e: Entry)
    requires
        0 <= i < es.len(),
        e.key() == es[i].key(),
        unique_keys(es),
    ensures
        entries_map(es.update(i, e)) == entries_map(es).insert(e.key(), e.sv()),
    decreases es.len(),
{
    let es2 = es.update(i, e);
    if i == es.len() - 1 {
        assert(es2.drop_last() =~= es.drop_last());
        assert(es2.last() == e);
        assert(entries_map(es2) == entries_map(es.drop_last()).insert(e.key(), e.sv()));
        assert(entries_map(es.drop_last()).insert(es.last().key(), es.last().sv()).insert(
            e.key(),
            e.sv(),
        ) =~= entries_map(es.drop_last()).insert(e.key(), e.sv()));
    } else {
        let head = es.drop_last();
        let last = es.last();
        assert(unique_keys(head)) by {
            assert(forall|i: int| 0 <= i < head.len() ==> head[i] == es[i]);
        }
        assert(es2.drop_last() =~= head.update(i, e));
        assert(es2.last() == last);
        lemma_entries_map_update(head, i, e);
        assert(entries_map(es2) == entries_map(head).insert(e.key(), e.sv()).insert(
            last.key(),
            last.sv(),
        ));
        assert(e.key() != last.key());
        assert(entries_map(head).insert(e.key(), e.sv()).insert(last.key(), last.sv())
            =~= entries_map(head).insert(last.key(), last.sv()).insert(e.key(), e.sv()));
    }
}

/// Inserting an entry with a fresh key at any position adds exactly that
/// key to the denoted table.
proof fn lemma_entries_map_insert(es: Seq<Entry>, i: int, e: Entry)
    requires
        0 <= i <= es.len(),
        forall|j: int| 0 <= j < es.len() ==> (#[trigger] es[j]).key() != e.key(),
    ensures
        entries_map(es.insert(i, e)) == entries_map(es).insert(e.key(), e.sv()),
    decreases es.len(),
{
    let es2 = es.insert(i, e);
    if i == es.len() {
        assert(es2.drop_last() =~= es);
        assert(es2.last() == e);
    } else {
        let head = es.drop_last();
        let last = es.last();
        assert(es2.drop_last() =~= head.insert(i, e));
        assert(es2.last() == last);
        assert(forall|j: int| 0 <= j < head.len() ==> (#[trigger] head[j]).key() == es[j].key());
        lemma_entries_map_insert(head, i, e);
        assert(entries_map(es2) == entries_map(head).insert(e.key(), e.sv()).insert(
            last.key(),
            last.sv(),
        ));
        assert(es[es.len() - 1].key() != e.key());
        assert(entries_map(head).insert(e.key(), e.sv()).insert(last.key(), last.sv())
            =~= entries_map(head).insert(last.key(), last.sv()).insert(e.key(), e.sv()));
    }
}

impl Default for MarkovChain {
    /// An empty chain, as `new` builds it.
    fn default() -> (c: Self)
        ensures
            c.wf(),
            c@ == Map::<BigramKey, Seq<Seq<char>>>::empty(),
            c@.dom().len() == 0,
    {
        MarkovChain::new()
    }
}

impl View for MarkovChain {
    type V = Transitions;

    /// The transition table this chain holds.
    closed spec fn view(&self) -> Transitions {
        entries_map(self.entries@)
    }
}

impl MarkovChain {
    /// Entries are sorted strictly by key — the vector doubles as the
    /// sorted key index — every bigram has at least one successor, and
    /// every stored string is a word.
    pub closed spec fn wf(&self) -> bool {
        &&& forall|i: int, j: int|
            0 <= i < j < self.entries@.len() ==> key_lt(
                (#[trigger] self.entries@[i]).key(),
                (#[trigger] self.entries@[j]).key(),
            )
        &&& forall|i: int|
            0 <= i < self.entries@.len() ==> (#[trigger] self.entries@[i]).sv().len() > 0
        &&& forall|i: int|
            0 <= i < self.entries@.len() ==> word_like((#[trigger] self.entries@[i]).key().0)
                && word_like(self.entries@[i].key().1) && (forall|j: int|
                0 <= j < self.entries@[i].sv().len() ==> word_like(
                    #[trigger] self.entries@[i].sv()[j],
                ))
    }

    /// Strict sorting leaves no room for two entries with one key.
    proof fn lemma_unique(&self)
        requires
            self.wf(),
        ensures
            unique_keys(self.entries@),
    {
        let es = self.entries@;
        assert forall|i: int, j: int|
            0 <= i < j < es.len() implies (#[trigger] es[i]).key() != (#[trigger] es[j]).key() by {
            if es[i].key() == es[j].key() {
                lemma_seq_lt_irrefl(es[i].key().0);
                lemma_seq_lt_irrefl(es[i].key().1);
            }
        }
    }

    /// Law: the table's invariant, as every caller may rely on it. A
    /// chain never stores an empty successor list — `learn` only inserts
    /// an entry when a successor exists — and every stored string is a
    /// whitespace-free, non-empty word, since all of them came out of the
    /// tokenizer.
    pub proof fn lemma_table_wf(&self)
        requires
            self.wf(),
        ensures
            table_wf(self@),
            self@.dom().finite(),
    {
        self.lemma_unique();
        lemma_entries_map(self.entries@);
        assert forall|k: BigramKey| #[trigger] self@.contains_key(k) implies word_like(k.0)
            && word_like(k.1) && self@[k].len() > 0 && (forall|j: int|
            0 <= j < self@[k].len() ==> word_like(#[trigger] self@[k][j])) by {
            let i = choose|i: int|
                0 <= i < self.entries@.len() && (#[trigger] self.entries@[i]).key() == k;
            assert(self@[k] == self.entries@[i].sv());
        }
    }

    /// Create a new empty Markov chain.
    pub fn new() -> (c: MarkovChain)
        ensures
            c.wf(),
            c@ == Map::<BigramKey, Seq<Seq<char>>>::empty(),
            c@.dom().len() == 0,
    {
        let c = MarkovChain { entries: Vec::new() };
        proof {
            assert(c@ =~= Map::<BigramKey, Seq<Seq<char>>>::empty());
            c.lemma_unique();
            lemma_entries_map(c.entries@);
        }
        c
    }

    /// Returns the number of states in the Markov chain.
    pub fn len(&self) -> (n: usize)
        requires
            self.wf(),
        ensures
            n == self@.dom().len(),
    {
        proof {
            self.lemma_unique();
            lemma_entries_map(self.entries@);
        }
        self.entries.len()
    }

    /// Returns `true` if the Markov chain has no states.
    pub fn is_empty(&self) -> (r: bool)
        requires
            self.wf(),
        ensures
            r == (self@.dom().len() == 0),
    {
        self.len() == 0
    }

    /// The position of the bigram `(a, b)` among the entries, if present.
    fn find_index(&self, a: &str, b: &str) -> (r: Option<usize>)
        requires
            self.wf(),
        ensures
            match r {
                Some(i) => i < self.entries@.len() && self.entries@[i as int].key() == (a@, b@)
                    && self@.contains_key((a@, b@)) && self@[(a@, b@)] == self.entries@[i as int].sv(),
                None => !self@.contains_key((a@, b@)),
            },
    {
        proof {
            self.lemma_unique();
            lemma_entries_map(self.entries@);
        }
        let n = self.entries.len();
        let mut i: usize = 0;
        while i < n
            invariant
                self.wf(),
                n == self.entries@.len(),
                i <= n,
                forall|j: int| 0 <= j < i ==> (#[trigger] self.entries@[j]).key() != (a@, b@),
            decreases n - i,
        {
            let hit = str_eq_fn(self.entries[i].a.as_str(), a) && str_eq_fn(
                self.entries[i].b.as_str(),
                b,
            );
            if hit {
                proof {
                    self.lemma_unique();
                    lemma_entries_map(self.entries@);
                }
                return Some(i);
            }
            i = i + 1;
        }
        proof {
            assert(!self@.contains_key((a@, b@)));
        }
        None
    }

    /// Get the possible words following the given bigram, or `None` if the
    /// state is invalid.
    pub fn words<'a>(&'a self, state: Bigram<'_>) -> (r: Option<&'a Vec<String>>)
        requires
            self.wf(),
        ensures
            match r {
                Some(v) => self@.contains_key((state.0@, state.1@)) && v.deep_view() == self@[(
                    state.0@,
                    state.1@,
                )],
                None => !self@.contains_key((state.0@, state.1@)),
            },
    {
        match self.find_index(state.0, state.1) {
            Some(i) => Some(&self.entries[i].succs),
            None => None,
        }
    }

    /// Whether `(a, b)` comes strictly before `(x, y)` in key order.
    fn key_lt_exec(a: &str, b: &str, x: &str, y: &str) -> (r: bool)
        ensures
            r == key_lt((a@, b@), (x@, y@)),
    {
        if str_lt(a, x) {
            true
        } else if str_eq_fn(a, x) {
            str_lt(b, y)
        } else {
            false
        }
    }

    /// Record that `c` followed `(a, b)`, keeping the entries sorted.
    fn insert_succ(&mut self, a: &String, b: &String, c: &String)
        requires
            old(self).wf(),
            word_like(a@),
            word_like(b@),
            word_like(c@),
        ensures
            final(self).wf(),
            final(self)@ == spec_record(old(self)@, a@, b@, c@),
            final(self)@.dom().finite(),
    {
        proof {
            self.lemma_unique();
            lemma_entries_map(self.entries@);
        }
        let ghost es = self.entries@;
        let ghost key = (a@, b@);
        let n = self.entries.len();
        let mut i: usize = 0;
        loop
            invariant
                self.wf(),
                self.entries@ == es,
                n == es.len(),
                i <= n,
                key == (a@, b@),
                forall|j: int| 0 <= j < i ==> key_lt((#[trigger] es[j]).key(), key),
            ensures
                i <= n,
                forall|j: int| 0 <= j < i ==> key_lt((#[trigger] es[j]).key(), key),
                i == n || !key_lt(es[i as int].key(), key),
            decreases n - i,
        {
            if i >= n {
                break ;
            }
            let lt = Self::key_lt_exec(
                self.entries[i].a.as_str(),
                self.entries[i].b.as_str(),
                a.as_str(),
                b.as_str(),
            );
            if !lt {
                break ;
            }
            i = i + 1;
        }
        let found = i < n && str_eq_fn(self.entries[i].a.as_str(), a.as_str()) && str_eq_fn(
            self.entries[i].b.as_str(),
            b.as_str(),
        );
        proof {
            // nothing below position i can hold the key
            assert forall|j: int| 0 <= j < i implies (#[trigger] es[j]).key() != key by {
                if es[j].key() == key {
                    lemma_seq_lt_irrefl(key.0);
                    lemma_seq_lt_irrefl(key.1);
                }
            }
        }
        if found {
            let ghost old_entry = es[i as int];
            proof {
                assert(es[i as int].key() == key);
                lemma_entries_map(es);
                assert(self@.contains_key(key));
                assert(self@[key] == old_entry.sv());
            }
            let mut e = self.entries.remove(i);
            e.succs.push(c.clone());
            self.entries.insert(i, e);
            proof {
                assert(self.entries@ =~= es.update(i as int, self.entries@[i as int]));
                let e2 = self.entries@[i as int];
                assert(e2.key() == key);
                assert(e2.sv() =~= old_entry.sv().push(c@));
                lemma_sorted_unique(es);
                lemma_entries_map_update(es, i as int, e2);
                assert(self@ =~= spec_record(entries_map(es), a@, b@, c@));
                assert(self.wf()) by {
                    assert(forall|j: int|
                        0 <= j < es.len() && j != i ==> self.entries@[j] == es[j]);
                }
                self.lemma_unique();
                lemma_entries_map(self.entries@);
            }
        } else {
            proof {
                // the key is absent: everything below i is smaller, and
                // everything at or above i is larger
                if i < n {
                    lemma_key_total(es[i as int].key(), key);
                    assert(key_lt(key, es[i as int].key()));
                }
                assert forall|j: int| 0 <= j < es.len() implies (#[trigger] es[j]).key() != key by {
                    if j >= i && es[j].key() == key {
                        if j > i {
                            assert(key_lt(es[i as int].key(), es[j].key()));
                            lemma_key_irrefl(es[i as int].key());
                            lemma_key_trans(key, es[i as int].key(), es[j].key());
                        }
                        lemma_key_irrefl(key);
                    }
                }
            }
            let mut sv: Vec<String> = Vec::new();
            sv.push(c.clone());
            let e = Entry { a: a.clone(), b: b.clone(), succs: sv };
            proof {
                assert(e.key() == key);
                assert(e.sv() =~= Seq::<Seq<char>>::empty().push(c@));
            }
            self.entries.insert(i, e);
            proof {
                assert(self.entries@ =~= es.insert(i as int, e));
                lemma_entries_map_insert(es, i as int, e);
                assert(!entries_map(es).contains_key(key)) by {
                    lemma_entries_map(es);
                }
                assert(self@ =~= spec_record(entries_map(es), a@, b@, c@));
                assert(self.wf()) by {
                    let es2 = self.entries@;
                    assert forall|p: int, q: int| 0 <= p < q < es2.len() implies key_lt(
                        (#[trigger] es2[p]).key(),
                        (#[trigger] es2[q]).key(),
                    ) by {
                        if q < i {
                            assert(es2[p] == es[p] && es2[q] == es[q]);
                        } else if p > i {
                            assert(es2[p] == es[p - 1] && es2[q] == es[q - 1]);
                        } else if p < i && q == i {
                            assert(es2[p] == es[p]);
                            assert(key_lt(es[p].key(), key));
                        } else if p < i && q > i {
                            assert(es2[p] == es[p] && es2[q] == es[q - 1]);
                        } else if p == i && q > i {
                            assert(es2[q] == es[q - 1]);
                            assert(q - 1 >= i);
                            if q - 1 == i {
                                assert(key_lt(key, es[i as int].key()));
                            } else {
                                assert(key_lt(es[i as int].key(), es[q - 1].key()));
                                lemma_key_trans(key, es[i as int].key(), es[q - 1].key());
                            }
                        }
                    }
                }
                self.lemma_unique();
                lemma_entries_map(self.entries@);
            }
        }
    }

    /// Draw a uniformly random key of the table: position `i` of the
    /// sorted entries is the `i`-th key of the index.
    fn choose_key(&self, rng: &mut rand_chacha::ChaCha20Rng) -> (r: (String, String))
        requires
            self.wf(),
            self@.dom().len() > 0,
        ensures
            self@.contains_key((r.0@, r.1@)),
    {
        proof {
            self.lemma_unique();
            lemma_entries_map(self.entries@);
        }
        let i = gen_index(rng, self.entries.len());
        proof {
            assert(self@.contains_key(self.entries@[i as int].key()));
        }
        (self.entries[i].a.clone(), self.entries[i].b.clone())
    }

    /// One step of the word stream: emit the first word of the current
    /// bigram, repair the state by a random restart if it is not a key,
    /// then advance to a randomly chosen successor.
    fn step_state(&self, state: (String, String), rng: &mut rand_chacha::ChaCha20Rng) -> (r: (
        String,
        (String, String),
    ))
        requires
            self.wf(),
            self@.dom().len() > 0,
        ensures
            r.0@ == state.0@,
            table_step(self@, (state.0@, state.1@), (r.1.0@, r.1.1@)),
    {
        let word = state.0.clone();
        let ghost sv = (state.0@, state.1@);
        let (cur, idx): ((String, String), usize) = match self.find_index(
            state.0.as_str(),
            state.1.as_str(),
        ) {
            Some(i) => (state, i),
            None => {
                let k = self.choose_key(rng);
                match self.find_index(k.0.as_str(), k.1.as_str()) {
                    Some(j) => (k, j),
                    None => {
                        proof {
                            assert(false);
                        }
                        unreached()
                    },
                }
            },
        };
        let ghost kv = (cur.0@, cur.1@);
        let m = self.entries[idx].succs.len();
        proof {
            assert(self.entries@[idx as int].sv().len() == m);
            assert(m > 0);
        }
        let j = gen_index(rng, m);
        let c = self.entries[idx].succs[j].clone();
        proof {
            assert(c@ == self.entries@[idx as int].sv()[j as int]);
            assert(self@[kv].contains(c@));
        }
        let next = (cur.1, c);
        proof {
            assert(table_step(self@, sv, (next.0@, next.1@)));
        }
        (word, next)
    }

    /// Walk `n` steps from `start`, collecting the emitted words.
    fn walk_from(&self, rng: &mut rand_chacha::ChaCha20Rng, n: usize, start: (String, String)) -> (r:
        Vec<String>)
        requires
            self.wf(),
            self@.dom().len() > 0,
        ensures
            r@.len() == n,
            n > 0 ==> exists|sts: Seq<BigramKey>|
                #[trigger] is_walk(self@, (start.0@, start.1@), sts) && sts.len() == n
                    && r.deep_view() == walk_words(sts),
    {
        let ghost t = self@;
        let ghost start_v = (start.0@, start.1@);
        let mut out: Vec<String> = Vec::new();
        let mut state = start;
        let ghost mut sts: Seq<BigramKey> = Seq::empty();
        let mut k: usize = 0;
        proof {
            assert(out.deep_view() =~= walk_words(sts));
        }
        while k < n
            invariant
                self.wf(),
                self@ == t,
                t.dom().len() > 0,
                k <= n,
                sts.len() == k,
                out@.len() == k,
                out.deep_view() == walk_words(sts),
                k == 0 ==> (state.0@, state.1@) == start_v,
                k > 0 ==> is_walk(t, start_v, sts) && table_step(t, sts.last(), (state.0@, state.1@)),
            decreases n - k,
        {
            let ghost pre = (state.0@, state.1@);
            let ghost old_sts = sts;
            let (w, next) = self.step_state(state, rng);
            out.push(w);
            proof {
                sts = sts.push(pre);
                assert(out.deep_view() =~= walk_words(old_sts).push(pre.0));
                assert(walk_words(sts) =~= walk_words(old_sts).push(pre.0));
                if k == 0 {
                    assert(sts[0] == pre);
                    assert(is_walk(t, start_v, sts));
                } else {
                    assert forall|i: int| 1 <= i < sts.len() implies table_step(
                        t,
                        sts[i - 1],
                        #[trigger] sts[i],
                    ) by {
                        if i < sts.len() - 1 {
                            assert(sts[i] == old_sts[i]);
                            assert(sts[i - 1] == old_sts[i - 1]);
                        } else {
                            assert(sts[i] == pre);
                            assert(sts[i - 1] == old_sts.last());
                        }
                    }
                    assert(sts[0] == old_sts[0]);
                    assert(is_walk(t, start_v, sts));
                }
            }
            state = next;
            k = k + 1;
        }
        proof {
            if n > 0 {
                assert(is_walk(t, start_v, sts) && sts.len() == n && out.deep_view() == walk_words(
                    sts,
                ));
            }
        }
        out
    }

    /// Walk the word stream from a random starting key and collect up to
    /// `n` words, each stripped of surrounding ASCII punctuation, words
    /// that trim to nothing skipped. On any chain whose words all
    /// survive trimming — `titleable`, the regular case — every draw
    /// yields a word and exactly `n` come back. The number of draws is
    /// capped only so that a degenerate chain, one whose every word is
    /// pure punctuation, cannot make the collection spin forever.
    pub(crate) fn title_words(&self, rng: &mut rand_chacha::ChaCha20Rng, n: usize) -> (r: Vec<
        String,
    >)
        requires
            self.wf(),
            self@.dom().len() > 0,
            n <= TITLE_DRAW_LIMIT,
        ensures
            r@.len() <= n,
            titleable(self@) ==> r@.len() == n,
            forall|i: int|
                0 <= i < r.deep_view().len() ==> title_word_ok(self@, #[trigger] r.deep_view()[i]),
    {
        let ghost t = self@;
        let start = self.choose_key(rng);
        let mut state = start;
        let mut out: Vec<String> = Vec::new();
        let mut attempts: usize = 0;
        proof {
            assert(exists|k: BigramKey| #[trigger]
                t.contains_key(k) && ((state.0@ == k.0) || (state.0@ == k.1)));
        }
        while attempts < TITLE_DRAW_LIMIT && out.len() < n
            invariant
                self.wf(),
                self@ == t,
                t.dom().len() > 0,
                n <= TITLE_DRAW_LIMIT,
                attempts <= TITLE_DRAW_LIMIT,
                out@.len() <= n,
                titleable(t) ==> out@.len() == attempts || out@.len() == n,
                exists|k: BigramKey| #[trigger]
                    t.contains_key(k) && ((state.0@ == k.0) || (state.0@ == k.1)),
                forall|i: int|
                    0 <= i < out.deep_view().len() ==> title_word_ok(
                        t,
                        #[trigger] out.deep_view()[i],
                    ),
            decreases TITLE_DRAW_LIMIT - attempts,
        {
            let ghost pre0 = state.0@;
            let ghost sv = (state.0@, state.1@);
            let (w, next) = self.step_state(state, rng);
            state = next;
            let tw = crate::format::trim_word(w.as_str());
            proof {
                if titleable(t) {
                    let k = choose|k: BigramKey| #[trigger]
                        t.contains_key(k) && ((pre0 == k.0) || (pre0 == k.1));
                    assert(crate::format::spec_trim_word(k.0).len() > 0
                        && crate::format::spec_trim_word(k.1).len() > 0);
                    assert(tw@.len() > 0);
                }
            }
            if !tw.as_str().is_empty() {
                let ghost old_dv = out.deep_view();
                out.push(tw);
                proof {
                    assert(out.deep_view() =~= old_dv.push(tw@));
                    let k = choose|k: BigramKey| #[trigger]
                        t.contains_key(k) && ((pre0 == k.0) || (pre0 == k.1));
                    assert(t.contains_key(k) && (tw@ == crate::format::spec_trim_word(k.0) || tw@
                        == crate::format::spec_trim_word(k.1)));
                    assert(title_word_ok(t, tw@));
                }
            }
            proof {
                let s2 = (state.0@, state.1@);
                assert(table_step(t, sv, s2));
                let (kk, cc) = choose|kk: BigramKey, cc: Seq<char>|
                    #![trigger t[kk].contains(cc)]
                    t.contains_key(kk) && (t.contains_key(sv) ==> kk == sv) && t[kk].contains(cc)
                        && s2 == (kk.1, cc);
                assert(t.contains_key(kk) && state.0@ == kk.1);
            }
            attempts = attempts + 1;
        }
        out
    }

    /// Generate a sentence with `n` words of lorem ipsum text, starting
    /// from a random point in the Markov chain, drawn from the given
    /// random number generator; a `.` is added as necessary to form a full
    /// sentence.
    pub fn generate_with_rng(&self, rng: &mut rand_chacha::ChaCha20Rng, n: usize) -> (r: String)
        requires
            self.wf(),
        ensures
            self@.dom().len() == 0 ==> r@ =~= Seq::<char>::empty(),
            n == 0 ==> r@ =~= Seq::<char>::empty(),
            self@.dom().len() > 0 && n > 0 ==> exists|start: BigramKey, sts: Seq<BigramKey>|
                #![trigger is_walk(self@, start, sts)]
                self@.contains_key(start) && is_walk(self@, start, sts) && sts.len() == n && r@
                    == spec_join_words(walk_words(sts)),
    {
        proof {
            self.lemma_unique();
            lemma_entries_map(self.entries@);
        }
        if self.entries.len() == 0 {
            let r = String::new();
            return r;
        }
        let start = self.choose_key(rng);
        let ghost start_v = (start.0@, start.1@);
        let ws = self.walk_from(rng, n, start);
        let r = join_words(&ws);
        proof {
            assert(ws.deep_view().len() == ws@.len());
            if n == 0 {
                assert(r@ =~= Seq::<char>::empty());
            } else {
                let sts = choose|sts: Seq<BigramKey>|
                    #[trigger] is_walk(self@, start_v, sts) && sts.len() == n && ws.deep_view()
                        == walk_words(sts);
                assert(self@.contains_key(start_v) && is_walk(self@, start_v, sts) && sts.len()
                    == n && r@ == spec_join_words(walk_words(sts)));
            }
        }
        r
    }

    /// Generate a sentence with `n` words of lorem ipsum text, starting
    /// from a random point in the Markov chain drawn from the default
    /// seeded generator; a `.` is added as necessary to form a full
    /// sentence.
    pub fn generate(&self, n: usize) -> (r: String)
        requires
            self.wf(),
        ensures
            self@.dom().len() == 0 ==> r@ =~= Seq::<char>::empty(),
            n == 0 ==> r@ =~= Seq::<char>::empty(),
            self@.dom().len() > 0 && n > 0 ==> exists|start: BigramKey, sts: Seq<BigramKey>|
                #![trigger is_walk(self@, start, sts)]
                self@.contains_key(start) && is_walk(self@, start, sts) && sts.len() == n && r@
                    == spec_join_words(walk_words(sts)),
    {
        let mut rng = default_rng();
        self.generate_with_rng(&mut rng, n)
    }

    /// Generate a sentence with `n` words of lorem ipsum text, starting
    /// from the given bigram — which need not be a key of the table: the
    /// first step repairs an unknown state by a random restart — with
    /// randomness from the given generator.
    pub fn generate_with_rng_from(
        &self,
        rng: &mut rand_chacha::ChaCha20Rng,
        n: usize,
        from: Bigram<'_>,
    ) -> (r: String)
        requires
            self.wf(),
        ensures
            self@.dom().len() == 0 ==> r@ =~= Seq::<char>::empty(),
            n == 0 ==> r@ =~= Seq::<char>::empty(),
            self@.dom().len() > 0 && n > 0 ==> exists|sts: Seq<BigramKey>|
                #[trigger] is_walk(self@, (from.0@, from.1@), sts) && sts.len() == n && r@
                    == spec_join_words(walk_words(sts)),
    {
        proof {
            self.lemma_unique();
            lemma_entries_map(self.entries@);
        }
        if self.entries.len() == 0 {
            let r = String::new();
            return r;
        }
        let start = (String::from_str(from.0), String::from_str(from.1));
        let ghost start_v = (start.0@, start.1@);
        let ws = self.walk_from(rng, n, start);
        let r = join_words(&ws);
        proof {
            assert(ws.deep_view().len() == ws@.len());
            if n == 0 {
                assert(r@ =~= Seq::<char>::empty());
            } else {
                assert(start_v == ((from.0@, from.1@)));
            }
        }
        r
    }

    /// Generate a sentence with `n` words of lorem ipsum text, starting
    /// from the given bigram, with randomness from the default seeded
    /// generator.
    pub fn generate_from(&self, n: usize, from: Bigram<'_>) -> (r: String)
        requires
            self.wf(),
        ensures
            self@.dom().len() == 0 ==> r@ =~= Seq::<char>::empty(),
            n == 0 ==> r@ =~= Seq::<char>::empty(),
            self@.dom().len() > 0 && n > 0 ==> exists|sts: Seq<BigramKey>|
                #[trigger] is_walk(self@, (from.0@, from.1@), sts) && sts.len() == n && r@
                    == spec_join_words(walk_words(sts)),
    {
        let mut rng = default_rng();
        self.generate_with_rng_from(&mut rng, n, from)
    }

    /// Add new text to the Markov chain. This can be called several times
    /// to build up the chain.
    pub fn learn(&mut self, sentence: &str)
        requires
            old(self).wf(),
        ensures
            final(self).wf(),
            final(self)@ == spec_learn(old(self)@, crate::text::spec_tokenize(sentence@)),
    {
        let tokens = crate::text::tokenize(sentence);
        let ghost ws = tokens.deep_view();
        proof {
            crate::text::lemma_tokenize_word_like(sentence@);
        }
        let n = tokens.len();
        if n < 3 {
            return;
        }
        let ghost t0 = old(self)@;
        let mut i: usize = 0;
        while i < n - 2
            invariant
                self.wf(),
                n == ws.len(),
                n == tokens@.len(),
                ws == tokens.deep_view(),
                3 <= n,
                i <= n - 2,
                forall|j: int| 0 <= j < ws.len() ==> word_like(#[trigger] ws[j]),
                self@ == spec_learn_upto(t0, ws, i as int),
            decreases n - 2 - i,
        {
            proof {
                assert(ws[i as int] == tokens@[i as int]@);
                assert(ws[i as int + 1] == tokens@[i as int + 1]@);
                assert(ws[i as int + 2] == tokens@[i as int + 2]@);
            }
            self.insert_succ(&tokens[i], &tokens[i + 1], &tokens[i + 2]);
            i = i + 1;
        }
    }
}

/// One move of the word stream positioned at `s`: an entry of the table —
/// the one for `s` itself whenever `s` is a key, otherwise one for some
/// key the restart draw picked — supplies one of its successors `c`, and
/// the stream moves to the bigram made of that key's second word and `c`.
pub open spec fn table_step(t: Transitions, s: BigramKey, s2: BigramKey) -> bool {
    exists|k: BigramKey, c: Seq<char>|
        #![trigger t[k].contains(c)]
        t.contains_key(k) && (t.contains_key(s) ==> k == s) && t[k].contains(c) && s2 == (k.1, c)
}

/// The sequence of bigram states a word stream passes through, starting
/// at `start`: each later state follows from the one before it by one
/// move. The word the stream emits at each state is the state's first
/// component.
pub open spec fn is_walk(t: Transitions, start: BigramKey, sts: Seq<BigramKey>) -> bool {
    sts.len() > 0 && sts[0] == start && (forall|i: int|
        1 <= i < sts.len() ==> table_step(t, sts[i - 1], #[trigger] sts[i]))
}

/// The words a walk emits: the first component of each state.
pub open spec fn walk_words(sts: Seq<BigramKey>) -> Seq<Seq<char>> {
    sts.map_values(|s: BigramKey| s.0)
}

/// A word fit for a title drawn from the table `t`: non-empty, and the
/// punctuation-trimmed form of a word of some key of `t`.
pub open spec fn title_word_ok(t: Transitions, w: Seq<char>) -> bool {
    w.len() > 0 && (exists|k: BigramKey| #[trigger]
        t.contains_key(k) && (w == crate::format::spec_trim_word(k.0) || w
            == crate::format::spec_trim_word(k.1)))
}

/// Every word of every key of the table survives punctuation trimming —
/// the regular case, in which each draw of a title word yields one.
pub open spec fn titleable(t: Transitions) -> bool {
    forall|k: BigramKey| #[trigger]
        t.contains_key(k) ==> crate::format::spec_trim_word(k.0).len() > 0
            && crate::format::spec_trim_word(k.1).len() > 0
}

/// A strictly sorted entry sequence has no repeated keys.
proof fn lemma_sorted_unique(es: Seq<Entry>)
    requires
        forall|i: int, j: int|
            0 <= i < j < es.len() ==> key_lt((#[trigger] es[i]).key(), (#[trigger] es[j]).key()),
    ensures
        unique_keys(es),
{
    assert forall|i: int, j: int|
        0 <= i < j < es.len() implies (#[trigger] es[i]).key() != (#[trigger] es[j]).key() by {
        if es[i].key() == es[j].key() {
            lemma_seq_lt_irrefl(es[i].key().0);
            lemma_seq_lt_irrefl(es[i].key().1);
        }
    }
}

/// Law: every word a walk emits is a word — non-empty and whitespace-free
/// — provided the start's own first word is one; every word after the
/// first comes out of the table. Together with the formatter's word-count
/// law this pins the word count of generated text.
pub proof fn lemma_walk_words_word_like(t: Transitions, start: BigramKey, sts: Seq<BigramKey>)
    requires
        table_wf(t),
        is_walk(t, start, sts),
        word_like(start.0),
    ensures
        forall|i: int| 0 <= i < walk_words(sts).len() ==> word_like(#[trigger] walk_words(sts)[i]),
{
    assert forall|i: int| 0 <= i < walk_words(sts).len() implies word_like(
        #[trigger] walk_words(sts)[i],
    ) by {
        assert(walk_words(sts)[i] == sts[i].0);
        if i == 0 {
            assert(sts[0] == start);
        } else {
            assert(table_step(t, sts[i - 1], sts[i]));
            let (kk, cc) = choose|kk: BigramKey, cc: Seq<char>|
                #![trigger t[kk].contains(cc)]
                t.contains_key(kk) && (t.contains_key(sts[i - 1]) ==> kk == sts[i - 1])
                    && t[kk].contains(cc) && sts[i] == (kk.1, cc);
            assert(t.contains_key(kk));
            assert(sts[i].0 == kk.1);
        }
    }
}

/// Law: generated text holds exactly one whitespace-delimited word per
/// requested word. `generate` and its variants return
/// `spec_join_words(walk_words(sts))` for a walk `sts` of the requested
/// length from a key of the table, so their output's word count equals
/// the request.
pub proof fn lemma_generate_word_count(
    t: Transitions,
    start: BigramKey,
    sts: Seq<BigramKey>,
    r: Seq<char>,
)
    requires
        table_wf(t),
        t.contains_key(start),
        is_walk(t, start, sts),
        r == crate::format::spec_join_words(walk_words(sts)),
    ensures
        crate::text::spec_tokenize(r).len() == sts.len(),
{
    assert(word_like(start.0));
    lemma_walk_words_word_like(t, start, sts);
    crate::format::lemma_join_words_word_count(walk_words(sts));
}

/// Law: the same word count holds for a walk from a caller-supplied
/// bigram — `generate_from` and the lipsum entry points — as long as the
/// supplied first word is itself a single word; the start need not be a
/// key of the table.
pub proof fn lemma_generate_from_word_count(
    t: Transitions,
    start: BigramKey,
    sts: Seq<BigramKey>,
    r: Seq<char>,
)
    requires
        table_wf(t),
        word_like(start.0),
        is_walk(t, start, sts),
        r == crate::format::spec_join_words(walk_words(sts)),
    ensures
        crate::text::spec_tokenize(r).len() == sts.len(),
{
    lemma_walk_words_word_like(t, start, sts);
    crate::format::lemma_join_words_word_count(walk_words(sts));
}

/// One observation keeps the table's words well-formed.
proof fn lemma_record_table_wf(t: Transitions, a: Seq<char>, b: Seq<char>, c: Seq<char>)
    requires
        table_wf(t),
        word_like(a),
        word_like(b),
        word_like(c),
    ensures
        table_wf(spec_record(t, a, b, c)),
{
    let t2 = spec_record(t, a, b, c);
    assert forall|k: BigramKey| #[trigger] t2.contains_key(k) implies word_like(k.0) && word_like(
        k.1,
    ) && t2[k].len() > 0 && (forall|j: int| 0 <= j < t2[k].len() ==> word_like(#[trigger] t2[k][j]))
        by {
        if k == ((a, b)) {
            let prev = if t.contains_key((a, b)) {
                t[(a, b)]
            } else {
                Seq::<Seq<char>>::empty()
            };
            assert(t2[k] == prev.push(c));
            assert forall|j: int| 0 <= j < t2[k].len() implies word_like(#[trigger] t2[k][j]) by {
                if j < prev.len() {
                    assert(t2[k][j] == prev[j]);
                } else {
                    assert(t2[k][j] == c);
                }
            }
        } else {
            assert(t.contains_key(k) && t2[k] == t[k]);
        }
    }
}

/// The first `k` windows keep the table's words well-formed.
proof fn lemma_learn_upto_table_wf(t: Transitions, ws: Seq<Seq<char>>, k: int)
    requires
        table_wf(t),
        forall|i: int| 0 <= i < ws.len() ==> word_like(#[trigger] ws[i]),
        k <= ws.len() - 2,
    ensures
        table_wf(spec_learn_upto(t, ws, k)),
    decreases k,
{
    if k > 0 {
        lemma_learn_upto_table_wf(t, ws, k - 1);
        lemma_record_table_wf(spec_learn_upto(t, ws, k - 1), ws[k - 1], ws[k], ws[k + 1]);
    }
}

/// Law: learning keeps the table's invariant — every key and successor a
/// word, no successor list empty — whenever the learned words are words,
/// as the tokenizer's always are.
pub proof fn lemma_learn_table_wf(t: Transitions, ws: Seq<Seq<char>>)
    requires
        table_wf(t),
        forall|i: int| 0 <= i < ws.len() ==> word_like(#[trigger] ws[i]),
    ensures
        table_wf(spec_learn(t, ws)),
{
    if ws.len() >= 3 {
        lemma_learn_upto_table_wf(t, ws, ws.len() - 2);
    }
}

/// Law: every word a title draws from a well-formed table — the
/// punctuation-trimmed form of some key's word — is a word with no ASCII
/// punctuation at either end; `lemma_title_join_shape` then carries that
/// shape through to every word of the finished title.
pub proof fn lemma_title_word_shape(t: Transitions, w: Seq<char>)
    requires
        table_wf(t),
        title_word_ok(t, w),
    ensures
        word_like(w),
        !crate::format::is_ascii_punct(w[0]),
        !crate::format::is_ascii_punct(crate::format::last_char(w)),
{
    let k = choose|k: BigramKey| #[trigger]
        t.contains_key(k) && (w == crate::format::spec_trim_word(k.0) || w
            == crate::format::spec_trim_word(k.1));
    if w == crate::format::spec_trim_word(k.0) {
        crate::format::lemma_trim_word_shape(k.0);
    } else {
        crate::format::lemma_trim_word_shape(k.1);
    }
}

/// Law: a learned bigram with a single recorded successor forces the
/// walk: from `(a, b)` with lone successor `c` the next two emitted words
/// are `b` and — as long as `(b, c)` is itself a key — `c`, whatever the
/// random source does.
pub proof fn lemma_single_successor_walk(
    t: Transitions,
    a: Seq<char>,
    b: Seq<char>,
    c: Seq<char>,
    sts: Seq<BigramKey>,
)
    requires
        t.contains_key((a, b)),
        t[(a, b)] == seq![c],
        is_walk(t, (a, b), sts),
        sts.len() >= 2,
    ensures
        sts[1] == (b, c),
        walk_words(sts)[0] == a,
        walk_words(sts)[1] == b,
        sts.len() >= 3 && t.contains_key((b, c)) ==> walk_words(sts)[2] == c,
{
    assert(table_step(t, sts[0], sts[1]));
    let (kk, cc) = choose|kk: BigramKey, cc: Seq<char>|
        #![trigger t[kk].contains(cc)]
        t.contains_key(kk) && (t.contains_key(sts[0]) ==> kk == sts[0]) && t[kk].contains(cc)
            && sts[1] == (kk.1, cc);
    assert(kk == (a, b));
    assert(t[(a, b)].contains(cc));
    assert(seq![c].contains(cc));
    assert(seq![c][0] == c);
    assert(cc == c);
    assert(sts[1] == (b, c));
    if sts.len() >= 3 && t.contains_key((b, c)) {
        assert(table_step(t, sts[1], sts[2]));
        let (k2, c2) = choose|k2: BigramKey, c2: Seq<char>|
            #![trigger t[k2].contains(c2)]
            t.contains_key(k2) && (t.contains_key(sts[1]) ==> k2 == sts[1]) && t[k2].contains(c2)
                && sts[2] == (k2.1, c2);
        assert(k2 == (b, c));
        assert(sts[2].0 == c);
    }
}

/// `key_lt` is irreflexive.
proof fn lemma_key_irrefl(x: BigramKey)
    ensures
        !key_lt(x, x),
{
    lemma_seq_lt_irrefl(x.0);
    lemma_seq_lt_irrefl(x.1);
}

/// `key_lt` is transitive.
proof fn lemma_key_trans(x: BigramKey, y: BigramKey, z: BigramKey)
    requires
        key_lt(x, y),
        key_lt(y, z),
    ensures
        key_lt(x, z),
{
    if seq_lt(x.0, y.0) && seq_lt(y.0, z.0) {
        lemma_seq_lt_trans(x.0, y.0, z.0);
    } else if seq_lt(x.0, y.0) && y.0 == z.0 {
    } else if x.0 == y.0 && seq_lt(y.0, z.0) {
    } else {
        lemma_seq_lt_trans(x.1, y.1, z.1);
    }
}

/// `key_lt` is total.
proof fn lemma_key_total(x: BigramKey, y: BigramKey)
    ensures
        key_lt(x, y) || key_lt(y, x) || x == y,
{
    lemma_seq_lt_total(x.0, y.0);
    lemma_seq_lt_total(x.1, y.1);
    if x.0 == y.0 && x.1 == y.1 {
        assert(x == y);
    }
}

} // verus!
