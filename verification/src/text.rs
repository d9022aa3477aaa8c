//! Characters, whitespace and tokenization.
//!
//! A corpus is split into words on Unicode whitespace, exactly as the
//! standard library's `split_whitespace` does. The whitespace predicate
//! itself comes from `char::is_whitespace`; its behaviour outside ASCII is
//! kept abstract.

use vstd::prelude::*;

verus! {

/// Whitespace outside the ASCII range, as `char::is_whitespace` classifies
/// it. Left abstract: the contracts never depend on which non-ASCII
/// characters are whitespace.
pub uninterp spec fn wide_white(c: char) -> bool;

/// A character that separates words: the Unicode `White_Space` property.
/// Its ASCII members are exactly HT, LF, VT, FF, CR and the space.
pub open spec fn is_white(c: char) -> bool {
    if (c as u32) < 128 {
        c == ' ' || c == '\t' || c == '\n' || c == '\r' || c == '\u{b}' || c == '\u{c}'
    } else {
        wide_white(c)
    }
}

/// Relies on `char::is_whitespace`: true exactly on characters with the
/// Unicode `White_Space` property, whose ASCII members are HT, LF, VT, FF,
/// CR and the space.
#[verifier::external_body]
pub fn is_whitespace_char(c: char) -> (r: bool)
    ensures
        r == is_white(c),
        (c as u32) >= 128 ==> r == wide_white(c),
{
    c.is_whitespace()
}

/// A word as the tokenizer produces it: non-empty and free of whitespace.
pub open spec fn word_like(w: Seq<char>) -> bool {
    w.len() > 0 && (forall|i: int| 0 <= i < w.len() ==> !is_white(#[trigger] w[i]))
}

/// The pending word, emitted as a token only when non-empty.
pub open spec fn flush_word(cur: Seq<char>) -> Seq<Seq<char>> {
    if cur.len() > 0 {
        seq![cur]
    } else {
        Seq::empty()
    }
}

/// Tokenization, one character at a time: `cur` is the word accumulated so
/// far; whitespace emits it and starts over.
pub open spec fn tok_step(s: Seq<char>, cur: Seq<char>) -> Seq<Seq<char>>
    decreases s.len(),
{
    if s.len() == 0 {
        flush_word(cur)
    } else if is_white(s[0]) {
        flush_word(cur) + tok_step(s.drop_first(), Seq::empty())
    } else {
        tok_step(s.drop_first(), cur.push(s[0]))
    }
}

/// The whitespace-delimited words of `s`, in order.
pub open spec fn spec_tokenize(s: Seq<char>) -> Seq<Seq<char>> {
    tok_step(s, Seq::empty())
}

/// Every token that `tok_step` emits from a whitespace-free accumulator is
/// itself non-empty and whitespace-free.
proof fn lemma_tok_step_word_like(s: Seq<char>, cur: Seq<char>)
    requires
        forall|i: int| 0 <= i < cur.len() ==> !is_white(#[trigger] cur[i]),
    ensures
        forall|i: int|
            0 <= i < tok_step(s, cur).len() ==> word_like(#[trigger] tok_step(s, cur)[i]),
    decreases s.len(),
{
    if s.len() == 0 {
        if cur.len() > 0 {
            assert(word_like(cur));
            assert(tok_step(s, cur) =~= seq![cur]);
            assert(tok_step(s, cur)[0] == cur);
        } else {
            assert(tok_step(s, cur).len() == 0);
        }
    } else if is_white(s[0]) {
        lemma_tok_step_word_like(s.drop_first(), Seq::empty());
        let res = tok_step(s, cur);
        let rec = tok_step(s.drop_first(), Seq::empty());
        assert(res == flush_word(cur) + rec);
        assert forall|i: int| 0 <= i < res.len() implies word_like(#[trigger] res[i]) by {
            let off = flush_word(cur).len() as int;
            if i < off {
                assert(res[i] == cur);
                assert(word_like(cur));
            } else {
                assert(res[i] == rec[i - off]);
            }
        }
    } else {
        let cur2 = cur.push(s[0]);
        assert(forall|i: int| 0 <= i < cur2.len() ==> !is_white(#[trigger] cur2[i]));
        lemma_tok_step_word_like(s.drop_first(), cur2);
        assert(tok_step(s, cur) == tok_step(s.drop_first(), cur2));
    }
}

/// Every word of `spec_tokenize(s)` is non-empty and whitespace-free.
pub proof fn lemma_tokenize_word_like(s: Seq<char>)
    ensures
        forall|i: int|
            0 <= i < spec_tokenize(s).len() ==> word_like(#[trigger] spec_tokenize(s)[i]),
{
    lemma_tok_step_word_like(s, Seq::empty());
}

/// Relies on `String`'s `FromIterator` over characters: the collected
/// string holds exactly the characters of the vector, in order.
#[verifier::external_body]
pub fn string_from_chars(v: &Vec<char>) -> (r: String)
    ensures
        r@ == v@,
{
    v.iter().collect()
}

/// The characters of `s`, as a vector.
pub fn str_to_chars(s: &str) -> (r: Vec<char>)
    ensures
        r@ == s@,
{
    let n = s.unicode_len();
    let mut r: Vec<char> = Vec::new();
    let mut i: usize = 0;
    while i < n
        invariant
            n == s@.len(),
            i <= n,
            r@ =~= s@.take(i as int),
        decreases n - i,
    {
        r.push(s.get_char(i));
        proof {
            assert(r@ =~= s@.take(i as int + 1));
        }
        i = i + 1;
    }
    proof {
        assert(s@.take(n as int) =~= s@);
    }
    r
}

/// Split `s` into whitespace-delimited words, as `split_whitespace` does.
pub fn tokenize(s: &str) -> (r: Vec<String>)
    ensures
        r.deep_view() == spec_tokenize(s@),
{
    let chars = str_to_chars(s);
    let n = chars.len();
    let mut toks: Vec<String> = Vec::new();
    let mut cur: Vec<char> = Vec::new();
    let mut i: usize = 0;
    proof {
        assert(s@.skip(0) =~= s@);
        assert(toks.deep_view() =~= Seq::<Seq<char>>::empty());
        assert(toks.deep_view() + tok_step(s@.skip(0), cur@) =~= tok_step(s@, Seq::empty()));
    }
    while i < n
        invariant
            n == chars@.len(),
            chars@ == s@,
            i <= n,
            spec_tokenize(s@) == toks.deep_view() + tok_step(s@.skip(i as int), cur@),
        decreases n - i,
    {
        let c = chars[i];
        let ghost rest = s@.skip(i as int);
        let ghost cur_old = cur@;
        let ghost toks_old = toks.deep_view();
        proof {
            assert(rest.len() > 0);
            assert(rest[0] == s@[i as int]);
            assert(rest.drop_first() =~= s@.skip(i as int + 1));
        }
        if is_whitespace_char(c) {
            if cur.len() > 0 {
                let w = string_from_chars(&cur);
                toks.push(w);
                cur = Vec::new();
                proof {
                    assert(toks.deep_view() =~= toks_old.push(cur_old));
                    assert(tok_step(rest, cur_old) == flush_word(cur_old) + tok_step(
                        s@.skip(i as int + 1),
                        Seq::empty(),
                    ));
                    assert(flush_word(cur_old) =~= seq![cur_old]);
                    let ghost rec = tok_step(s@.skip(i as int + 1), Seq::empty());
                    assert(cur@ =~= Seq::<char>::empty());
                    assert(toks_old + (seq![cur_old] + rec) =~= toks_old.push(cur_old) + rec);
                    assert(toks_old + tok_step(rest, cur_old) =~= toks.deep_view() + tok_step(
                        s@.skip(i as int + 1),
                        cur@,
                    ));
                }
            } else {
                proof {
                    assert(tok_step(rest, cur_old) == flush_word(cur_old) + tok_step(
                        s@.skip(i as int + 1),
                        Seq::empty(),
                    ));
                    let ghost rec = tok_step(s@.skip(i as int + 1), Seq::empty());
                    assert(cur_old =~= Seq::<char>::empty());
                    assert(flush_word(cur_old) =~= Seq::<Seq<char>>::empty());
                    assert(flush_word(cur_old) + rec =~= rec);
                    assert(toks_old + tok_step(rest, cur_old) =~= toks.deep_view() + tok_step(
                        s@.skip(i as int + 1),
                        cur@,
                    ));
                }
            }
        } else {
            cur.push(c);
            proof {
                assert(cur@ =~= cur_old.push(rest[0]));
                assert(tok_step(rest, cur_old) == tok_step(s@.skip(i as int + 1), cur@));
            }
        }
        i = i + 1;
    }
    proof {
        assert(s@.skip(n as int) =~= Seq::<char>::empty());
    }
    let ghost toks_old = toks.deep_view();
    let ghost cur_old = cur@;
    if cur.len() > 0 {
        let w = string_from_chars(&cur);
        toks.push(w);
        proof {
            assert(toks.deep_view() =~= toks_old.push(cur_old));
            assert(flush_word(cur_old) =~= seq![cur_old]);
            assert(toks_old + flush_word(cur_old) =~= toks.deep_view());
        }
    } else {
        proof {
            assert(flush_word(cur_old) =~= Seq::<Seq<char>>::empty());
            assert(toks_old + flush_word(cur_old) =~= toks.deep_view());
        }
    }
    toks
}

/// Tokens split at a space: the words of `a + " " + b` are the words of
/// `a` followed by the words of `b`.
pub proof fn lemma_tok_split_space(a: Seq<char>, b: Seq<char>, cur: Seq<char>)
    ensures
        tok_step(a + seq![' '] + b, cur) == tok_step(a, cur) + tok_step(b, Seq::empty()),
    decreases a.len(),
{
    let s = a + seq![' '] + b;
    if a.len() == 0 {
        assert(s.len() > 0);
        assert(s[0] == ' ');
        assert(is_white(' '));
        assert(s.drop_first() =~= b);
        assert(tok_step(s, cur) == flush_word(cur) + tok_step(b, Seq::empty()));
        assert(tok_step(a, cur) == flush_word(cur));
        assert(flush_word(cur) + tok_step(b, Seq::empty()) =~= tok_step(a, cur) + tok_step(
            b,
            Seq::empty(),
        ));
    } else {
        assert(s[0] == a[0]);
        assert(s.drop_first() =~= a.drop_first() + seq![' '] + b);
        if is_white(a[0]) {
            lemma_tok_split_space(a.drop_first(), b, Seq::empty());
            assert(tok_step(s, cur) == flush_word(cur) + (tok_step(a.drop_first(), Seq::empty())
                + tok_step(b, Seq::empty())));
            assert(tok_step(a, cur) == flush_word(cur) + tok_step(a.drop_first(), Seq::empty()));
            assert(flush_word(cur) + (tok_step(a.drop_first(), Seq::empty()) + tok_step(
                b,
                Seq::empty(),
            )) =~= (flush_word(cur) + tok_step(a.drop_first(), Seq::empty())) + tok_step(
                b,
                Seq::empty(),
            ));
        } else {
            lemma_tok_split_space(a.drop_first(), b, cur.push(a[0]));
            assert(tok_step(s, cur) == tok_step(a.drop_first() + seq![' '] + b, cur.push(a[0])));
            assert(tok_step(a, cur) == tok_step(a.drop_first(), cur.push(a[0])));
        }
    }
}

/// A whitespace-free run of characters is at most one word.
pub proof fn lemma_tok_single(w: Seq<char>, cur: Seq<char>)
    requires
        forall|i: int| 0 <= i < w.len() ==> !is_white(#[trigger] w[i]),
    ensures
        tok_step(w, cur) == flush_word(cur + w),
    decreases w.len(),
{
    if w.len() == 0 {
        assert(cur + w =~= cur);
    } else {
        assert(!is_white(w[0]));
        lemma_tok_single(w.drop_first(), cur.push(w[0]));
        assert(cur.push(w[0]) + w.drop_first() =~= cur + w);
    }
}

/// A single word tokenizes to itself.
pub proof fn lemma_tokenize_word(w: Seq<char>)
    requires
        word_like(w),
    ensures
        spec_tokenize(w) == seq![w],
{
    lemma_tok_single(w, Seq::empty());
    assert(Seq::<char>::empty() + w =~= w);
    assert(flush_word(w) =~= seq![w]);
}

/// Lexicographic order on character sequences, by Unicode scalar value.
/// On UTF-8 text this agrees with the byte order that `str`'s `Ord` uses.
pub open spec fn seq_lt(a: Seq<char>, b: Seq<char>) -> bool
    decreases a.len(),
{
    b.len() > 0 && (a.len() == 0 || (a[0] as u32) < (b[0] as u32) || (a[0] == b[0] && seq_lt(
        a.drop_first(),
        b.drop_first(),
    )))
}

/// The order is irreflexive.
pub proof fn lemma_seq_lt_irrefl(a: Seq<char>)
    ensures
        !seq_lt(a, a),
    decreases a.len(),
{
    if a.len() > 0 {
        lemma_seq_lt_irrefl(a.drop_first());
    }
}

/// The order is transitive.
pub proof fn lemma_seq_lt_trans(a: Seq<char>, b: Seq<char>, c: Seq<char>)
    requires
        seq_lt(a, b),
        seq_lt(b, c),
    ensures
        seq_lt(a, c),
    decreases a.len(),
{
    if a.len() > 0 {
        if (a[0] as u32) < (b[0] as u32) {
            if !((b[0] as u32) < (c[0] as u32)) {
                assert(b[0] == c[0]);
            }
        } else {
            assert(a[0] == b[0]);
            if !((b[0] as u32) < (c[0] as u32)) {
                assert(b[0] == c[0]);
                lemma_seq_lt_trans(a.drop_first(), b.drop_first(), c.drop_first());
            }
        }
    }
}

/// Distinct characters have distinct scalar values.
proof fn lemma_char_cast_inj(c: char, d: char)
    requires
        c as u32 == d as u32,
    ensures
        c == d,
{
}

/// The order is total: two sequences are ordered one way or the other, or
/// they are equal.
pub proof fn lemma_seq_lt_total(a: Seq<char>, b: Seq<char>)
    ensures
        seq_lt(a, b) || seq_lt(b, a) || a == b,
    decreases a.len(),
{
    if a.len() == 0 && b.len() == 0 {
        assert(a =~= b);
    } else if a.len() > 0 && b.len() > 0 {
        if !((a[0] as u32) < (b[0] as u32)) && !((b[0] as u32) < (a[0] as u32)) {
            lemma_char_cast_inj(a[0], b[0]);
            assert(a[0] == b[0]);
            lemma_seq_lt_total(a.drop_first(), b.drop_first());
            if a.drop_first() == b.drop_first() {
                assert(a.drop_first().len() == b.drop_first().len());
                assert(a.len() == b.len());
                assert forall|i: int| 0 <= i < a.len() implies a[i] == b[i] by {
                    if i > 0 {
                        assert(a[i] == a.drop_first()[i - 1]);
                        assert(b[i] == b.drop_first()[i - 1]);
                    }
                }
                assert(a =~= b);
            }
        }
    }
}

/// Compare two strings for equality, character by character.
pub fn str_eq_fn(a: &str, b: &str) -> (r: bool)
    ensures
        r == (a@ == b@),
{
    let na = a.unicode_len();
    let nb = b.unicode_len();
    if na != nb {
        return false;
    }
    let mut i: usize = 0;
    while i < na
        invariant
            na == a@.len(),
            na == b@.len(),
            i <= na,
            a@.take(i as int) =~= b@.take(i as int),
        decreases na - i,
    {
        let ca = a.get_char(i);
        let cb = b.get_char(i);
        if (ca as u32) != (cb as u32) {
            proof {
                assert(a@[i as int] != b@[i as int]);
            }
            return false;
        }
        proof {
            assert(a@.take(i as int + 1) =~= b@.take(i as int + 1));
        }
        i = i + 1;
    }
    proof {
        assert(a@ =~= a@.take(na as int));
        assert(b@ =~= b@.take(na as int));
    }
    true
}

/// If two sequences agree on their first `i` characters, their lexicographic
/// comparison is decided by the remainders.
proof fn lemma_seq_lt_skip(a: Seq<char>, b: Seq<char>, i: int)
    requires
        0 <= i <= a.len(),
        i <= b.len(),
        a.take(i) == b.take(i),
    ensures
        seq_lt(a, b) == seq_lt(a.skip(i), b.skip(i)),
    decreases i,
{
    if i > 0 {
        assert(a.take(i)[0] == a[0]);
        assert(b.take(i)[0] == b[0]);
        assert(a[0] == b[0]);
        assert(a.drop_first().take(i - 1) =~= a.take(i).drop_first());
        assert(b.drop_first().take(i - 1) =~= b.take(i).drop_first());
        lemma_seq_lt_skip(a.drop_first(), b.drop_first(), i - 1);
        assert(a.drop_first().skip(i - 1) =~= a.skip(i));
        assert(b.drop_first().skip(i - 1) =~= b.skip(i));
    } else {
        assert(a.skip(0) =~= a);
        assert(b.skip(0) =~= b);
    }
}

/// Decide `seq_lt(a@, b@)`, character by character.
pub fn str_lt(a: &str, b: &str) -> (r: bool)
    ensures
        r == seq_lt(a@, b@),
{
    let na = a.unicode_len();
    let nb = b.unicode_len();
    let mut i: usize = 0;
    while i < na && i < nb
        invariant
            na == a@.len(),
            nb == b@.len(),
            i <= na,
            i <= nb,
            a@.take(i as int) =~= b@.take(i as int),
        decreases na - i,
    {
        let ca = a.get_char(i);
        let cb = b.get_char(i);
        if (ca as u32) < (cb as u32) {
            proof {
                lemma_seq_lt_skip(a@, b@, i as int);
                assert(a@.skip(i as int)[0] == ca);
                assert(b@.skip(i as int)[0] == cb);
            }
            return true;
        }
        if (ca as u32) > (cb as u32) {
            proof {
                lemma_seq_lt_skip(a@, b@, i as int);
                assert(a@.skip(i as int)[0] == ca);
                assert(b@.skip(i as int)[0] == cb);
            }
            return false;
        }
        proof {
            assert(ca == cb);
            assert(a@.take(i as int + 1) =~= b@.take(i as int + 1));
        }
        i = i + 1;
    }
    proof {
        lemma_seq_lt_skip(a@, b@, i as int);
        if i == na {
            assert(a@.skip(i as int).len() == 0);
        } else {
            assert(b@.skip(i as int).len() == 0);
        }
    }
    na < nb
}

} // verus!
