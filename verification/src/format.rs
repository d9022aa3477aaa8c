//! Sentence formatting.
//!
//! A finite sequence of words is joined into a single sentence-like string:
//! the first word is capitalized, every word after sentence-ending
//! punctuation is capitalized, and the result is terminated with `.` unless
//! it already ends in `.`, `!` or `?` (trailing ASCII punctuation is
//! stripped first, so that `,` is replaced rather than followed by `.`).
//! This is the full formatter — capitalization plus terminal-punctuation
//! normalization — not the bare space-join that earlier text generators
//! sometimes used; the two behaviours are observably different and this
//! module implements only the former.

use crate::text::is_white;
use crate::text::is_whitespace_char;
use crate::text::lemma_tok_single;
use crate::text::lemma_tok_split_space;
use crate::text::lemma_tokenize_word;
use crate::text::spec_tokenize;
use crate::text::str_to_chars;
use crate::text::string_from_chars;
use crate::text::word_like;
use vstd::prelude::*;

verus! {

/// Punctuation that ends a sentence.
pub open spec fn sentence_end(c: char) -> bool {
    c == '.' || c == '!' || c == '?'
}

/// The string ends in sentence-ending punctuation.
pub open spec fn ends_sentence(s: Seq<char>) -> bool {
    s.len() > 0 && sentence_end(s[s.len() - 1])
}

/// The final character of a non-empty string.
pub open spec fn last_char(s: Seq<char>) -> char {
    s[s.len() - 1]
}

/// What `char::to_uppercase` yields for `c`: the Unicode uppercase
/// mapping, a function of the character alone. Kept abstract; the facts
/// the library needs of it are laid over it by [`upper_of`].
pub uninterp spec fn upper_raw(c: char) -> Seq<char>;

/// The uppercase mapping of `c`, with the properties every Unicode case
/// mapping has made definitional: ASCII punctuation has no mapping and
/// stays itself; no mapping is empty; the mapping of a non-whitespace
/// character brings in no whitespace; the mapping of a non-punctuation
/// character brings in no ASCII punctuation. On any character whose raw
/// mapping meets these — every character there is — `upper_of` equals
/// `upper_raw`; the fallback branches exist only to make the properties
/// provable while the mapping itself stays abstract.
pub open spec fn upper_of(c: char) -> Seq<char> {
    let raw = upper_raw(c);
    if is_ascii_punct(c) {
        seq![c]
    } else if raw.len() == 0 {
        seq![c]
    } else if !is_white(c) && (exists|i: int| 0 <= i < raw.len() && is_white(#[trigger] raw[i])) {
        seq![c]
    } else if exists|i: int| 0 <= i < raw.len() && is_ascii_punct(#[trigger] raw[i]) {
        seq![c]
    } else {
        raw
    }
}

/// A word with its first character replaced by that character's uppercase
/// mapping; the rest is unchanged.
pub open spec fn spec_capitalize(w: Seq<char>) -> Seq<char> {
    if w.len() == 0 {
        w
    } else {
        upper_of(w[0]) + w.skip(1)
    }
}

/// Law: capitalizing a word leaves it a word — non-empty and free of
/// whitespace.
pub proof fn lemma_capitalize_word_like(w: Seq<char>)
    requires
        word_like(w),
    ensures
        word_like(spec_capitalize(w)),
{
    let u = upper_of(w[0]);
    let raw = upper_raw(w[0]);
    assert(!is_white(w[0]));
    assert(u.len() >= 1);
    assert forall|i: int| 0 <= i < u.len() implies !is_white(#[trigger] u[i]) by {
        if is_ascii_punct(w[0]) || raw.len() == 0 || (exists|j: int|
            0 <= j < raw.len() && is_white(#[trigger] raw[j])) || (exists|j: int|
            0 <= j < raw.len() && is_ascii_punct(#[trigger] raw[j])) {
            assert(u[i] == w[0]);
        } else {
            assert(u == raw);
            assert(!is_white(raw[i]));
        }
    }
    let c = spec_capitalize(w);
    assert forall|i: int| 0 <= i < c.len() implies !is_white(#[trigger] c[i]) by {
        if i >= u.len() {
            assert(c[i] == w[i - u.len() + 1]);
        }
    }
}

/// The uppercase mapping of a non-punctuation character holds no ASCII
/// punctuation.
proof fn lemma_upper_no_punct(c: char)
    requires
        !is_ascii_punct(c),
    ensures
        forall|i: int| 0 <= i < upper_of(c).len() ==> !is_ascii_punct(#[trigger] upper_of(c)[i]),
{
    let u = upper_of(c);
    let raw = upper_raw(c);
    assert forall|i: int| 0 <= i < u.len() implies !is_ascii_punct(#[trigger] u[i]) by {
        if raw.len() == 0 || (!is_white(c) && exists|j: int|
            0 <= j < raw.len() && is_white(#[trigger] raw[j])) || (exists|j: int|
            0 <= j < raw.len() && is_ascii_punct(#[trigger] raw[j])) {
            assert(u[i] == c);
        } else {
            assert(u == raw);
            assert(!is_ascii_punct(raw[i]));
        }
    }
}

/// Capitalizing keeps a word's final character when the word has two or
/// more; a one-character word of ASCII punctuation it keeps whole, since
/// punctuation has no uppercase mapping.
proof fn lemma_capitalize_last(w: Seq<char>)
    requires
        word_like(w),
    ensures
        spec_capitalize(w).len() >= 1,
        w.len() >= 2 ==> spec_capitalize(w)[spec_capitalize(w).len() - 1] == w[w.len() - 1],
        w.len() == 1 && is_ascii_punct(w[0]) ==> spec_capitalize(w) == w,
{
    let u = upper_of(w[0]);
    assert(u.len() >= 1);
    if w.len() >= 2 {
        let c = spec_capitalize(w);
        assert(c[c.len() - 1] == w.skip(1)[w.skip(1).len() - 1]);
    }
    if w.len() == 1 && is_ascii_punct(w[0]) {
        assert(u =~= seq![w[0]]);
        assert(spec_capitalize(w) =~= w);
    }
}

/// ASCII punctuation, as `char::is_ascii_punctuation` defines it:
/// `!..=/`, `:..=@`, `[..=`` ` ``, and `{..=~`.
pub open spec fn is_ascii_punct(c: char) -> bool {
    (0x21 <= c as u32 && c as u32 <= 0x2f) || (0x3a <= c as u32 && c as u32 <= 0x40) || (0x5b
        <= c as u32 && c as u32 <= 0x60) || (0x7b <= c as u32 && c as u32 <= 0x7e)
}

/// Whether the word at position `i >= 1` must be capitalized: the word
/// before it (for the very first word, its capitalized form, which is what
/// the builder has at hand) ends a sentence.
pub open spec fn needs_cap_at(ws: Seq<Seq<char>>, i: int) -> bool {
    if i <= 1 {
        ends_sentence(spec_capitalize(ws[0]))
    } else {
        ends_sentence(ws[i - 1])
    }
}

/// The form in which word `i` appears in the joined sentence.
pub open spec fn out_word(ws: Seq<Seq<char>>, i: int) -> Seq<char> {
    if i == 0 {
        spec_capitalize(ws[0])
    } else if needs_cap_at(ws, i) {
        spec_capitalize(ws[i])
    } else {
        ws[i]
    }
}

/// The first `k` words, joined by single spaces, capitalization applied.
pub open spec fn spec_joined_upto(ws: Seq<Seq<char>>, k: int) -> Seq<char>
    decreases k,
{
    if k <= 1 {
        out_word(ws, 0)
    } else {
        spec_joined_upto(ws, k - 1) + seq![' '] + out_word(ws, k - 1)
    }
}

/// All words joined by single spaces, capitalization applied, before the
/// terminal punctuation is fixed up.
pub open spec fn spec_joined(ws: Seq<Seq<char>>) -> Seq<char> {
    spec_joined_upto(ws, ws.len() as int)
}

/// `s` without its trailing run of ASCII punctuation.
pub open spec fn trim_trailing_punct(s: Seq<char>) -> Seq<char>
    decreases s.len(),
{
    if s.len() > 0 && is_ascii_punct(s[s.len() - 1]) {
        trim_trailing_punct(s.drop_last())
    } else {
        s
    }
}

/// Guarantee a sentence ending: left alone if it already ends in `.`, `!`
/// or `?`; otherwise trailing ASCII punctuation is stripped and a `.` is
/// appended.
pub open spec fn finish_sentence(s: Seq<char>) -> Seq<char> {
    if ends_sentence(s) {
        s
    } else {
        trim_trailing_punct(s).push('.')
    }
}

/// The full formatter: empty input gives the empty string; otherwise the
/// capitalized join with its ending fixed up.
pub open spec fn spec_join_words(ws: Seq<Seq<char>>) -> Seq<char> {
    if ws.len() == 0 {
        Seq::empty()
    } else {
        finish_sentence(spec_joined(ws))
    }
}

/// Check if `c` is an ASCII punctuation character.
pub fn is_ascii_punctuation(c: char) -> (r: bool)
    ensures
        r == is_ascii_punct(c),
{
    let u = c as u32;
    (0x21 <= u && u <= 0x2f) || (0x3a <= u && u <= 0x40) || (0x5b <= u && u <= 0x60) || (0x7b <= u
        && u <= 0x7e)
}

/// Relies on `char::to_uppercase`: the Unicode uppercase mapping of the
/// character, a function of the character alone, yielding one or more
/// characters; ASCII punctuation has no mapping and is returned as it
/// is, and no mapping brings in whitespace or ASCII punctuation of its
/// own — so the guards of `upper_of` never fire and the two claims below
/// coincide.
#[verifier::external_body]
fn upper_char(c: char) -> (r: String)
    ensures
        r@ == upper_of(c),
        r@ == upper_raw(c),
{
    c.to_uppercase().collect()
}

/// Capitalize the first character in a string.
pub fn capitalize(word: &str) -> (r: String)
    ensures
        r@ == spec_capitalize(word@),
{
    let n = word.unicode_len();
    if n == 0 {
        let r = String::new();
        proof {
            assert(r@ =~= word@);
        }
        r
    } else {
        let c = word.get_char(0);
        let mut s = upper_char(c);
        let rest = word.substring_char(1, n);
        s.append(rest);
        proof {
            assert(word@.skip(1) =~= word@.subrange(1, n as int));
        }
        s
    }
}

/// The string ends in `.`, `!` or `?`.
fn ends_sentence_vec(sent: &Vec<char>) -> (r: bool)
    ensures
        r == ends_sentence(sent@),
{
    if sent.len() == 0 {
        false
    } else {
        let c = sent[sent.len() - 1];
        c == '.' || c == '!' || c == '?'
    }
}

/// The word ends in `.`, `!` or `?`.
fn word_ends_sentence(w: &str) -> (r: bool)
    ensures
        r == ends_sentence(w@),
{
    let n = w.unicode_len();
    if n == 0 {
        false
    } else {
        let c = w.get_char(n - 1);
        c == '.' || c == '!' || c == '?'
    }
}

/// Append the characters of `w` to the sentence being built.
fn push_str_chars(sent: &mut Vec<char>, w: &str)
    ensures
        final(sent)@ == old(sent)@ + w@,
{
    let mut wc = str_to_chars(w);
    sent.append(&mut wc);
}

/// `s` without its leading run of ASCII punctuation.
pub open spec fn trim_leading_punct(s: Seq<char>) -> Seq<char>
    decreases s.len(),
{
    if s.len() > 0 && is_ascii_punct(s[0]) {
        trim_leading_punct(s.drop_first())
    } else {
        s
    }
}

/// A word stripped of ASCII punctuation at both ends.
pub open spec fn spec_trim_word(s: Seq<char>) -> Seq<char> {
    trim_leading_punct(trim_trailing_punct(s))
}

/// Strip ASCII punctuation from both ends of a word.
pub fn trim_word(w: &str) -> (r: String)
    ensures
        r@ == spec_trim_word(w@),
{
    let mut chars = str_to_chars(w);
    while chars.len() > 0 && is_ascii_punctuation(chars[chars.len() - 1])
        invariant
            trim_trailing_punct(chars@) == trim_trailing_punct(w@),
        decreases chars@.len(),
    {
        let ghost before = chars@;
        chars.pop();
        proof {
            assert(chars@ =~= before.drop_last());
        }
    }
    proof {
        assert(chars@ == trim_trailing_punct(w@));
    }
    let ghost trimmed = chars@;
    let n = chars.len();
    let mut i: usize = 0;
    proof {
        assert(chars@.skip(0) =~= chars@);
    }
    while i < n && is_ascii_punctuation(chars[i])
        invariant
            n == chars@.len(),
            chars@ == trimmed,
            i <= n,
            trim_leading_punct(chars@.skip(i as int)) == trim_leading_punct(chars@),
        decreases n - i,
    {
        proof {
            assert(chars@.skip(i as int)[0] == chars@[i as int]);
            assert(chars@.skip(i as int).drop_first() =~= chars@.skip(i as int + 1));
        }
        i = i + 1;
    }
    proof {
        if i < n {
            assert(chars@.skip(i as int)[0] == chars@[i as int]);
        }
        assert(trim_leading_punct(chars@.skip(i as int)) == chars@.skip(i as int));
    }
    let mut out: Vec<char> = Vec::new();
    let mut j = i;
    while j < n
        invariant
            n == chars@.len(),
            chars@ == trimmed,
            i <= j <= n,
            out@ == chars@.subrange(i as int, j as int),
        decreases n - j,
    {
        out.push(chars[j]);
        proof {
            assert(out@ =~= chars@.subrange(i as int, j as int + 1));
        }
        j = j + 1;
    }
    proof {
        assert(out@ =~= chars@.skip(i as int));
    }
    string_from_chars(&out)
}

/// The byte length of a word, as UTF-8 holds it.
pub open spec fn byte_len(w: Seq<char>) -> nat {
    vstd::utf8::encode_utf8(w).len()
}

/// A word long enough to be capitalized in a title: more than three
/// bytes, measured as `str::len` measures it.
pub open spec fn title_big(w: Seq<char>) -> bool {
    byte_len(w) as usize > 3
}

/// The form of word `i` in a title: the first word and every word longer
/// than three bytes is capitalized.
pub open spec fn title_out_word(ws: Seq<Seq<char>>, i: int) -> Seq<char> {
    if i == 0 || title_big(ws[i]) {
        spec_capitalize(ws[i])
    } else {
        ws[i]
    }
}

/// The first `k` title words, joined by single spaces.
pub open spec fn spec_title_upto(ws: Seq<Seq<char>>, k: int) -> Seq<char>
    decreases k,
{
    if k <= 0 {
        Seq::empty()
    } else if k == 1 {
        title_out_word(ws, 0)
    } else {
        spec_title_upto(ws, k - 1) + seq![' '] + title_out_word(ws, k - 1)
    }
}

/// Title words joined by single spaces, capitalized as titles are, with
/// no terminal punctuation added.
pub open spec fn spec_title_join(ws: Seq<Seq<char>>) -> Seq<char> {
    spec_title_upto(ws, ws.len() as int)
}

/// Join words in title case: the first word and every word longer than
/// three bytes is capitalized.
pub fn title_case_join(words: &Vec<String>) -> (r: String)
    ensures
        r@ == spec_title_join(words.deep_view()),
{
    let ghost ws = words.deep_view();
    let mut out: Vec<char> = Vec::new();
    let mut i: usize = 0;
    proof {
        assert(out@ =~= spec_title_upto(ws, 0));
    }
    while i < words.len()
        invariant
            ws == words.deep_view(),
            ws.len() == words@.len(),
            i <= ws.len(),
            out@ == spec_title_upto(ws, i as int),
        decreases words@.len() - i,
    {
        if i > 0 {
            out.push(' ');
        }
        proof {
            assert(ws[i as int] == words[i as int]@);
        }
        let big = words[i].as_str().len() > 3;
        proof {
            assert(big == title_big(ws[i as int]));
        }
        let w = if i == 0 || big {
            capitalize(words[i].as_str())
        } else {
            words[i].clone()
        };
        proof {
            assert(w@ == title_out_word(ws, i as int));
        }
        push_str_chars(&mut out, w.as_str());
        proof {
            assert(out@ =~= spec_title_upto(ws, i as int + 1));
        }
        i = i + 1;
    }
    string_from_chars(&out)
}

/// Join words into a sentence. The first word is capitalized, each word
/// after sentence-ending punctuation is capitalized, and the sentence ends
/// with `.` unless it already ends with some other sentence-ending
/// punctuation; trailing ASCII punctuation is stripped before the `.` is
/// added.
pub fn join_words(words: &Vec<String>) -> (r: String)
    ensures
        r@ == spec_join_words(words.deep_view()),
{
    let ghost ws = words.deep_view();
    if words.len() == 0 {
        let r = String::new();
        proof {
            assert(r@ =~= spec_join_words(ws));
        }
        return r;
    }
    let first = capitalize(words[0].as_str());
    let mut sent: Vec<char> = str_to_chars(first.as_str());
    proof {
        assert(ws[0] == words[0]@);
        assert(sent@ == spec_joined_upto(ws, 1));
    }
    let mut needs_cap = ends_sentence_vec(&sent);
    let mut i: usize = 1;
    while i < words.len()
        invariant
            ws == words.deep_view(),
            1 <= i <= ws.len(),
            ws.len() == words@.len(),
            sent@ == spec_joined_upto(ws, i as int),
            needs_cap == needs_cap_at(ws, i as int),
        decreases words@.len() - i,
    {
        sent.push(' ');
        let ghost sent_mid = sent@;
        let w = if needs_cap {
            capitalize(words[i].as_str())
        } else {
            words[i].clone()
        };
        proof {
            assert(ws[i as int] == words[i as int]@);
            assert(w@ == out_word(ws, i as int));
        }
        push_str_chars(&mut sent, w.as_str());
        proof {
            assert(sent@ =~= spec_joined_upto(ws, i as int + 1));
        }
        needs_cap = word_ends_sentence(words[i].as_str());
        proof {
            assert(needs_cap == needs_cap_at(ws, i as int + 1));
        }
        i = i + 1;
    }
    proof {
        assert(sent@ == spec_joined(ws));
    }
    if !ends_sentence_vec(&sent) {
        let ghost joined = sent@;
        while sent.len() > 0 && is_ascii_punctuation(sent[sent.len() - 1])
            invariant
                trim_trailing_punct(sent@) == trim_trailing_punct(joined),
            decreases sent@.len(),
        {
            let ghost before = sent@;
            sent.pop();
            proof {
                assert(sent@ =~= before.drop_last());
            }
        }
        proof {
            assert(trim_trailing_punct(sent@) == sent@);
        }
        sent.push('.');
        proof {
            assert(sent@ == trim_trailing_punct(joined).push('.'));
        }
    }
    string_from_chars(&sent)
}

/// The trimmed sentence is a prefix of the sentence.
proof fn lemma_trim_prefix(s: Seq<char>)
    ensures
        trim_trailing_punct(s).len() <= s.len(),
        trim_trailing_punct(s) == s.take(trim_trailing_punct(s).len() as int),
    decreases s.len(),
{
    if s.len() > 0 && is_ascii_punct(s[s.len() - 1]) {
        lemma_trim_prefix(s.drop_last());
        let t = trim_trailing_punct(s.drop_last());
        assert(s.drop_last().take(t.len() as int) =~= s.take(t.len() as int));
    } else {
        assert(s.take(s.len() as int) =~= s);
    }
}

/// Trimming trailing punctuation stops at a space: only the part after
/// the last space is affected, and it at most vanishes.
proof fn lemma_trim_split_space(a: Seq<char>, b: Seq<char>)
    ensures
        trim_trailing_punct(b).len() > 0 ==> trim_trailing_punct(a + seq![' '] + b) == a
            + seq![' '] + trim_trailing_punct(b),
        trim_trailing_punct(b).len() == 0 ==> trim_trailing_punct(a + seq![' '] + b) == a
            + seq![' '],
    decreases b.len(),
{
    let s = a + seq![' '] + b;
    if b.len() == 0 {
        assert(s =~= a + seq![' ']);
        assert(s[s.len() - 1] == ' ');
        assert(!is_ascii_punct(' '));
        assert(trim_trailing_punct(s) == s);
    } else {
        assert(s[s.len() - 1] == b[b.len() - 1]);
        if is_ascii_punct(b[b.len() - 1]) {
            assert(s.drop_last() =~= a + seq![' '] + b.drop_last());
            lemma_trim_split_space(a, b.drop_last());
            assert(trim_trailing_punct(s) == trim_trailing_punct(a + seq![' '] + b.drop_last()));
            assert(trim_trailing_punct(b) == trim_trailing_punct(b.drop_last()));
        } else {
            assert(trim_trailing_punct(s) == s);
            assert(trim_trailing_punct(b) == b);
        }
    }
}

/// The words of the joined sentence, before its ending is fixed up: one
/// per input word, each in its output form.
proof fn lemma_tokenize_joined(ws: Seq<Seq<char>>, k: int)
    requires
        1 <= k <= ws.len(),
        forall|i: int| 0 <= i < ws.len() ==> word_like(#[trigger] out_word(ws, i)),
    ensures
        spec_tokenize(spec_joined_upto(ws, k)) == Seq::new(k as nat, |i: int| out_word(ws, i)),
    decreases k,
{
    if k == 1 {
        lemma_tokenize_word(out_word(ws, 0));
        assert(spec_tokenize(spec_joined_upto(ws, 1)) =~= Seq::new(
            1,
            |i: int| out_word(ws, i),
        ));
    } else {
        lemma_tokenize_joined(ws, k - 1);
        let a = spec_joined_upto(ws, k - 1);
        let w = out_word(ws, k - 1);
        lemma_tok_split_space(a, w, Seq::empty());
        assert(spec_tokenize(a + seq![' '] + w) == spec_tokenize(a) + spec_tokenize(w));
        lemma_tokenize_word(w);
        assert(spec_tokenize(spec_joined_upto(ws, k)) =~= Seq::new(
            k as nat,
            |i: int| out_word(ws, i),
        ));
    }
}

/// The period is not whitespace, so appending it extends or starts a
/// word.
proof fn lemma_period_not_white()
    ensures
        !is_white('.'),
        !is_ascii_punct(' '),
{
}

/// Every output form of a word is itself a word.
proof fn lemma_out_words_word_like(ws: Seq<Seq<char>>)
    requires
        forall|i: int| 0 <= i < ws.len() ==> word_like(#[trigger] ws[i]),
    ensures
        forall|i: int| 0 <= i < ws.len() ==> word_like(#[trigger] out_word(ws, i)),
{
    assert forall|i: int| 0 <= i < ws.len() implies word_like(#[trigger] out_word(ws, i)) by {
        lemma_capitalize_word_like(ws[i]);
        assert(out_word(ws, i) == ws[i] || out_word(ws, i) == spec_capitalize(ws[i]));
    }
}

/// Law: the formatter emits exactly one whitespace-delimited word per
/// input word — the words a chain learns are non-empty and
/// whitespace-free by construction, and capitalization keeps them so.
pub proof fn lemma_join_words_word_count(ws: Seq<Seq<char>>)
    requires
        ws.len() > 0,
        forall|i: int| 0 <= i < ws.len() ==> word_like(#[trigger] ws[i]),
    ensures
        spec_tokenize(spec_join_words(ws)).len() == ws.len(),
{
    let n = ws.len() as int;
    lemma_out_words_word_like(ws);
    lemma_tokenize_joined(ws, n);
    let joined = spec_joined(ws);
    if ends_sentence(joined) {
        assert(spec_tokenize(spec_join_words(ws)).len() == n);
    } else {
        lemma_period_not_white();
        if n == 1 {
            assert(joined == out_word(ws, 0));
            lemma_trim_prefix(joined);
            let t = trim_trailing_punct(joined);
            let f = t.push('.');
            assert(word_like(f)) by {
                assert forall|i: int| 0 <= i < f.len() implies !is_white(#[trigger] f[i]) by {
                    if i < t.len() {
                        assert(f[i] == joined[i]);
                    } else {
                        assert(f[i] == '.');
                    }
                }
            }
            lemma_tokenize_word(f);
            assert(spec_tokenize(spec_join_words(ws)).len() == 1);
        } else {
            let a = spec_joined_upto(ws, n - 1);
            let w = out_word(ws, n - 1);
            assert(joined == a + seq![' '] + w);
            lemma_trim_split_space(a, w);
            lemma_trim_prefix(w);
            let tw = trim_trailing_punct(w);
            if tw.len() > 0 {
                let w2 = tw.push('.');
                assert(finish_sentence(joined) =~= a + seq![' '] + w2);
                assert(word_like(w2)) by {
                    assert forall|i: int| 0 <= i < w2.len() implies !is_white(
                        #[trigger] w2[i],
                    ) by {
                        if i < tw.len() {
                            assert(w2[i] == w[i]);
                        } else {
                            assert(w2[i] == '.');
                        }
                    }
                }
                lemma_tok_split_space(a, w2, Seq::empty());
                lemma_tokenize_word(w2);
                lemma_tokenize_joined(ws, n - 1);
                assert(spec_tokenize(spec_join_words(ws)).len() == (n - 1) + 1);
            } else {
                let w2 = seq!['.'];
                assert(finish_sentence(joined) =~= a + seq![' '] + w2);
                assert(word_like(w2)) by {
                    assert(w2[0] == '.');
                }
                lemma_tok_split_space(a, w2, Seq::empty());
                lemma_tokenize_word(w2);
                lemma_tokenize_joined(ws, n - 1);
                assert(spec_tokenize(spec_join_words(ws)).len() == (n - 1) + 1);
            }
        }
    }
}

/// Law: a sentence already ending in `.`, `!` or `?` is not modified by
/// the ending fix-up, so joining such words adds nothing.
pub proof fn lemma_finish_keeps_terminator(s: Seq<char>)
    requires
        ends_sentence(s),
    ensures
        finish_sentence(s) == s,
{
}

/// Law: a sentence ending in any other ASCII punctuation — a comma, say —
/// has that trailing punctuation stripped and replaced by a single `.`.
pub proof fn lemma_finish_replaces_trailing_punctuation(s: Seq<char>)
    requires
        s.len() > 0,
        is_ascii_punct(s[s.len() - 1]),
        !sentence_end(s[s.len() - 1]),
    ensures
        finish_sentence(s) == trim_trailing_punct(s).push('.'),
        finish_sentence(s).len() > 0,
        finish_sentence(s)[finish_sentence(s).len() - 1] == '.',
{
}

/// Law: fixing up a sentence ending is idempotent — the fixed sentence
/// always ends in `.`, `!` or `?`, which a second fix-up keeps.
pub proof fn lemma_finish_idempotent(s: Seq<char>)
    ensures
        ends_sentence(finish_sentence(s)),
        finish_sentence(finish_sentence(s)) == finish_sentence(s),
{
    if !ends_sentence(s) {
        let f = trim_trailing_punct(s).push('.');
        assert(f[f.len() - 1] == '.');
    }
}

/// Law: any word immediately following a word that ends a sentence is
/// capitalized in the joined sentence: the word at that position of the
/// output is exactly the capitalized form.
pub proof fn lemma_capitalize_after_punctuation(ws: Seq<Seq<char>>, i: int)
    requires
        1 <= i < ws.len(),
        needs_cap_at(ws, i),
        forall|j: int| 0 <= j < ws.len() ==> word_like(#[trigger] ws[j]),
    ensures
        out_word(ws, i) == spec_capitalize(ws[i]),
        spec_tokenize(spec_joined(ws))[i] == spec_capitalize(ws[i]),
{
    lemma_out_words_word_like(ws);
    lemma_tokenize_joined(ws, ws.len() as int);
}

/// Law: any other word — one not following sentence-ending punctuation,
/// other than the first — appears in the joined sentence verbatim.
pub proof fn lemma_verbatim_without_punctuation(ws: Seq<Seq<char>>, i: int)
    requires
        1 <= i < ws.len(),
        !needs_cap_at(ws, i),
        forall|j: int| 0 <= j < ws.len() ==> word_like(#[trigger] ws[j]),
    ensures
        out_word(ws, i) == ws[i],
        spec_tokenize(spec_joined(ws))[i] == ws[i],
{
    lemma_out_words_word_like(ws);
    lemma_tokenize_joined(ws, ws.len() as int);
}

/// The joined sentence is non-empty and ends with the final character of
/// its last output word.
proof fn lemma_joined_ends(ws: Seq<Seq<char>>)
    requires
        ws.len() > 0,
        forall|i: int| 0 <= i < ws.len() ==> word_like(#[trigger] ws[i]),
    ensures
        out_word(ws, ws.len() - 1).len() > 0,
        spec_joined(ws).len() > 0,
        spec_joined(ws)[spec_joined(ws).len() - 1] == out_word(ws, ws.len() - 1)[out_word(
            ws,
            ws.len() - 1,
        ).len() - 1],
{
    lemma_out_words_word_like(ws);
    let n = ws.len() as int;
    if n == 1 {
        assert(spec_joined(ws) == out_word(ws, 0));
    } else {
        let a = spec_joined_upto(ws, n - 1);
        let ow = out_word(ws, n - 1);
        assert(spec_joined(ws) == a + seq![' '] + ow);
        assert(spec_joined(ws)[spec_joined(ws).len() - 1] == ow[ow.len() - 1]);
    }
}

/// The last output word ends with the same character as the last input
/// word: capitalization never touches a word's final character.
proof fn lemma_last_out_char(ws: Seq<Seq<char>>)
    requires
        ws.len() > 0,
        forall|i: int| 0 <= i < ws.len() ==> word_like(#[trigger] ws[i]),
        is_ascii_punct(last_char(ws[ws.len() - 1])),
    ensures
        out_word(ws, ws.len() - 1).len() > 0,
        last_char(out_word(ws, ws.len() - 1)) == last_char(ws[ws.len() - 1]),
{
    lemma_out_words_word_like(ws);
    let last = ws[ws.len() - 1];
    let ow = out_word(ws, ws.len() - 1);
    lemma_capitalize_last(last);
    if ow != last {
        assert(ow == spec_capitalize(last));
        if last.len() == 1 {
            assert(spec_capitalize(last) == last);
        }
    }
}

/// Law: joining words whose last word already ends in `.`, `!` or `?`
/// appends no further terminator and strips nothing: the ending fix-up
/// leaves the capitalized join exactly as it is.
pub proof fn lemma_join_words_keeps_terminator(ws: Seq<Seq<char>>)
    requires
        ws.len() > 0,
        forall|i: int| 0 <= i < ws.len() ==> word_like(#[trigger] ws[i]),
        ends_sentence(ws[ws.len() - 1]),
    ensures
        spec_join_words(ws) == spec_joined(ws),
        ends_sentence(spec_join_words(ws)),
{
    let last = ws[ws.len() - 1];
    assert(is_ascii_punct(last_char(last)));
    lemma_last_out_char(ws);
    lemma_joined_ends(ws);
    assert(ends_sentence(spec_joined(ws)));
}

/// Law: joining words whose last word ends in ASCII punctuation that does
/// not end a sentence — a comma, say — strips the trailing punctuation
/// and appends a single `.`: a last word `"word,"` ends the result as
/// `"word."`, never `"word,."`.
pub proof fn lemma_join_words_replaces_trailing(ws: Seq<Seq<char>>)
    requires
        ws.len() > 0,
        forall|i: int| 0 <= i < ws.len() ==> word_like(#[trigger] ws[i]),
        is_ascii_punct(last_char(ws[ws.len() - 1])),
        !sentence_end(last_char(ws[ws.len() - 1])),
    ensures
        spec_join_words(ws) == trim_trailing_punct(spec_joined(ws)).push('.'),
        ends_sentence(spec_join_words(ws)),
{
    lemma_last_out_char(ws);
    lemma_joined_ends(ws);
    assert(!ends_sentence(spec_joined(ws)));
    let f = trim_trailing_punct(spec_joined(ws)).push('.');
    assert(f[f.len() - 1] == '.');
}

/// A string that survives trailing trimming ends without punctuation.
proof fn lemma_trim_trailing_edge(s: Seq<char>)
    ensures
        trim_trailing_punct(s).len() > 0 ==> !is_ascii_punct(last_char(trim_trailing_punct(s))),
    decreases s.len(),
{
    if s.len() > 0 && is_ascii_punct(s[s.len() - 1]) {
        lemma_trim_trailing_edge(s.drop_last());
    }
}

/// Stripping leading punctuation leaves a suffix: what remains begins
/// without punctuation and keeps the final character.
proof fn lemma_trim_leading_props(s: Seq<char>)
    ensures
        trim_leading_punct(s).len() <= s.len(),
        trim_leading_punct(s) == s.skip(s.len() - trim_leading_punct(s).len()),
        trim_leading_punct(s).len() > 0 ==> !is_ascii_punct(trim_leading_punct(s)[0]),
        trim_leading_punct(s).len() > 0 ==> last_char(trim_leading_punct(s)) == last_char(s),
    decreases s.len(),
{
    if s.len() > 0 && is_ascii_punct(s[0]) {
        lemma_trim_leading_props(s.drop_first());
        let t = trim_leading_punct(s);
        assert(s.drop_first().skip(s.drop_first().len() - t.len()) =~= s.skip(s.len() - t.len()));
        if t.len() > 0 {
            assert(last_char(s.drop_first()) == last_char(s));
        }
    } else {
        assert(s.skip(0) =~= s);
    }
}

/// Law: a word that survives punctuation trimming is a word — non-empty,
/// whitespace-free — with no ASCII punctuation at either end.
pub proof fn lemma_trim_word_shape(s: Seq<char>)
    requires
        forall|i: int| 0 <= i < s.len() ==> !is_white(#[trigger] s[i]),
    ensures
        spec_trim_word(s).len() > 0 ==> word_like(spec_trim_word(s)),
        spec_trim_word(s).len() > 0 ==> !is_ascii_punct(spec_trim_word(s)[0]),
        spec_trim_word(s).len() > 0 ==> !is_ascii_punct(last_char(spec_trim_word(s))),
{
    let tt = trim_trailing_punct(s);
    lemma_trim_prefix(s);
    lemma_trim_trailing_edge(s);
    let tw = trim_leading_punct(tt);
    lemma_trim_leading_props(tt);
    if tw.len() > 0 {
        assert forall|i: int| 0 <= i < tw.len() implies !is_white(#[trigger] tw[i]) by {
            assert(tw[i] == tt[i + tt.len() - tw.len()]);
            assert(tt[i + tt.len() - tw.len()] == s[i + tt.len() - tw.len()]);
        }
    }
}

/// Title casing keeps a trimmed word's shape: the form the title shows
/// is a word with no ASCII punctuation at either end.
proof fn lemma_title_out_shape(ws: Seq<Seq<char>>, i: int)
    requires
        0 <= i < ws.len(),
        forall|j: int| 0 <= j < ws.len() ==> word_like(#[trigger] ws[j]),
        !is_ascii_punct(ws[i][0]),
        !is_ascii_punct(last_char(ws[i])),
    ensures
        word_like(title_out_word(ws, i)),
        !is_ascii_punct(title_out_word(ws, i)[0]),
        !is_ascii_punct(last_char(title_out_word(ws, i))),
{
    let w = ws[i];
    let ow = title_out_word(ws, i);
    lemma_capitalize_word_like(w);
    lemma_capitalize_last(w);
    lemma_upper_no_punct(w[0]);
    if ow != w {
        assert(ow == spec_capitalize(w));
        let u = upper_of(w[0]);
        assert(ow[0] == u[0]);
        if w.len() == 1 {
            assert(last_char(ow) == u[u.len() - 1]);
        }
    }
}

/// Law: a title shows one word per drawn word, and every one of them —
/// capitalized or not — begins and ends without ASCII punctuation,
/// provided the drawn words do, as punctuation-trimmed words always do.
pub proof fn lemma_title_join_shape(ws: Seq<Seq<char>>)
    requires
        forall|i: int| 0 <= i < ws.len() ==> word_like(#[trigger] ws[i]),
        forall|i: int|
            0 <= i < ws.len() ==> !is_ascii_punct((#[trigger] ws[i])[0]) && !is_ascii_punct(
                last_char(ws[i]),
            ),
    ensures
        spec_tokenize(spec_title_join(ws)) == Seq::new(ws.len(), |i: int| title_out_word(ws, i)),
        forall|i: int|
            0 <= i < ws.len() ==> word_like(#[trigger] title_out_word(ws, i)) && !is_ascii_punct(
                title_out_word(ws, i)[0],
            ) && !is_ascii_punct(last_char(title_out_word(ws, i))),
{
    assert forall|i: int|
        0 <= i < ws.len() implies word_like(#[trigger] title_out_word(ws, i)) && !is_ascii_punct(
        title_out_word(ws, i)[0],
    ) && !is_ascii_punct(last_char(title_out_word(ws, i))) by {
        lemma_title_out_shape(ws, i);
    }
    lemma_tokenize_title(ws, ws.len() as int);
}

/// The words of the title join: one per drawn word, each in its title
/// form.
proof fn lemma_tokenize_title(ws: Seq<Seq<char>>, k: int)
    requires
        0 <= k <= ws.len(),
        forall|i: int| 0 <= i < ws.len() ==> word_like(#[trigger] title_out_word(ws, i)),
    ensures
        spec_tokenize(spec_title_upto(ws, k)) == Seq::new(k as nat, |i: int| title_out_word(ws, i)),
    decreases k,
{
    if k == 0 {
        assert(spec_tokenize(spec_title_upto(ws, 0)) =~= Seq::new(
            0,
            |i: int| title_out_word(ws, i),
        ));
    } else if k == 1 {
        lemma_tokenize_word(title_out_word(ws, 0));
        assert(spec_tokenize(spec_title_upto(ws, 1)) =~= Seq::new(
            1,
            |i: int| title_out_word(ws, i),
        ));
    } else {
        lemma_tokenize_title(ws, k - 1);
        let a = spec_title_upto(ws, k - 1);
        let w = title_out_word(ws, k - 1);
        lemma_tok_split_space(a, w, Seq::empty());
        assert(spec_tokenize(a + seq![' '] + w) == spec_tokenize(a) + spec_tokenize(w));
        lemma_tokenize_word(w);
        assert(spec_tokenize(spec_title_upto(ws, k)) =~= Seq::new(
            k as nat,
            |i: int| title_out_word(ws, i),
        ));
    }
}

/// Whether the string is a single word: non-empty and whitespace-free.
pub fn is_word_like(w: &str) -> (r: bool)
    ensures
        r == word_like(w@),
{
    let n = w.unicode_len();
    if n == 0 {
        return false;
    }
    let mut i: usize = 0;
    while i < n
        invariant
            n == w@.len(),
            i <= n,
            forall|j: int| 0 <= j < i ==> !is_white(#[trigger] w@[j]),
        decreases n - i,
    {
        if is_whitespace_char(w.get_char(i)) {
            return false;
        }
        i = i + 1;
    }
    true
}

/// Join words into a sentence as `join_words` does, after checking that
/// every word is a single word — non-empty and free of whitespace. When
/// the check passes, the result is a sentence of exactly one
/// whitespace-delimited word per input word, with every word that
/// follows sentence-ending punctuation capitalized; when some word fails
/// it, nothing is joined and `None` comes back.
pub fn join_words_counted(words: &Vec<String>) -> (r: Option<String>)
    ensures
        match r {
            Some(s) => {
                &&& forall|i: int| 0 <= i < words@.len() ==> word_like(#[trigger] words.deep_view()[i])
                &&& s@ == spec_join_words(words.deep_view())
                &&& spec_tokenize(s@).len() == words@.len()
                &&& forall|i: int|
                    1 <= i < words@.len() && needs_cap_at(words.deep_view(), i)
                        ==> spec_tokenize(spec_joined(words.deep_view()))[i] == spec_capitalize(
                        words.deep_view()[i],
                    )
            },
            None => exists|i: int|
                0 <= i < words@.len() && !word_like(#[trigger] words.deep_view()[i]),
        },
{
    let ghost ws = words.deep_view();
    let n = words.len();
    let mut i: usize = 0;
    while i < n
        invariant
            ws == words.deep_view(),
            n == words@.len(),
            ws.len() == n,
            i <= n,
            forall|j: int| 0 <= j < i ==> word_like(#[trigger] ws[j]),
        decreases n - i,
    {
        proof {
            assert(ws[i as int] == words[i as int]@);
        }
        if !is_word_like(words[i].as_str()) {
            proof {
                assert(!word_like(ws[i as int]));
            }
            return None;
        }
        i = i + 1;
    }
    let s = join_words(words);
    proof {
        if n > 0 {
            lemma_join_words_word_count(ws);
            assert forall|j: int|
                1 <= j < ws.len() && needs_cap_at(ws, j) implies spec_tokenize(spec_joined(ws))[j]
                == spec_capitalize(ws[j]) by {
                lemma_capitalize_after_punctuation(ws, j);
            }
        } else {
            assert(ws.len() == 0);
            assert(spec_tokenize(s@).len() == 0);
        }
    }
    Some(s)
}

} // verus!
