//! Character-level scanning helpers shared by the packet codec and the
//! login matcher: word-character runs, literal matching at an offset, and
//! trimming of trailing `%` characters.

use vstd::prelude::*;
use vstd::string::StrSliceExecFns;

verus! {

/// A word character: an ASCII letter, digit or underscore.
pub open spec fn is_word_char(c: char) -> bool {
    let u = c as u32;
    (48 <= u && u <= 57) || (65 <= u && u <= 90) || (97 <= u && u <= 122) || u == 95
}

/// A password character: a word character or `%`.
pub open spec fn is_pass_char(c: char) -> bool {
    is_word_char(c) || c as u32 == 37
}

/// Length of the maximal run of word characters in `s` starting at `i`.
pub open spec fn word_run_len(s: Seq<char>, i: int) -> int
    decreases s.len() - i when 0 <= i <= s.len()
{
    if i < s.len() && is_word_char(s[i]) {
        1 + word_run_len(s, i + 1)
    } else {
        0
    }
}

/// Length of the maximal run of password characters in `s` starting at `i`.
pub open spec fn pass_run_len(s: Seq<char>, i: int) -> int
    decreases s.len() - i when 0 <= i <= s.len()
{
    if i < s.len() && is_pass_char(s[i]) {
        1 + pass_run_len(s, i + 1)
    } else {
        0
    }
}

/// True when `pat` occurs in `s` at offset `i`.
pub open spec fn has_seq_at(s: Seq<char>, i: int, pat: Seq<char>) -> bool {
    0 <= i && i + pat.len() <= s.len() && s.subrange(i, i + pat.len()) == pat
}

/// `word_run_len` is pinned down by its endpoint: every character before `e`
/// in the run is a word character and `e` is the end of the text or a
/// non-word character.
pub proof fn lemma_word_run_len(s: Seq<char>, i: int, e: int)
    requires
        0 <= i <= e <= s.len(),
        forall|k: int| i <= k < e ==> is_word_char(#[trigger] s[k]),
        e < s.len() ==> !is_word_char(s[e]),
    ensures
        word_run_len(s, i) == e - i,
    decreases e - i,
{
    if i < e {
        lemma_word_run_len(s, i + 1, e);
    }
}

/// The analogue of [`lemma_word_run_len`] for password characters.
pub proof fn lemma_pass_run_len(s: Seq<char>, i: int, e: int)
    requires
        0 <= i <= e <= s.len(),
        forall|k: int| i <= k < e ==> is_pass_char(#[trigger] s[k]),
        e < s.len() ==> !is_pass_char(s[e]),
    ensures
        pass_run_len(s, i) == e - i,
    decreases e - i,
{
    if i < e {
        lemma_pass_run_len(s, i + 1, e);
    }
}

/// Length of `s` once all trailing `%` characters are removed.
pub open spec fn trim_pct_len(s: Seq<char>) -> int
    decreases s.len(),
{
    if s.len() > 0 && s[s.len() - 1] == '%' {
        trim_pct_len(s.drop_last())
    } else {
        s.len() as int
    }
}

/// `s` with all trailing `%` characters removed.
pub open spec fn trim_pct(s: Seq<char>) -> Seq<char> {
    s.subrange(0, trim_pct_len(s))
}

/// `trim_pct_len` is pinned down by its endpoint: everything from `e` on is
/// `%`, and the character just before `e` (if any) is not.
pub proof fn lemma_trim_pct_len(s: Seq<char>, e: int)
    requires
        0 <= e <= s.len(),
        forall|k: int| e <= k < s.len() ==> #[trigger] s[k] == '%',
        e > 0 ==> s[e - 1] != '%',
    ensures
        trim_pct_len(s) == e,
    decreases s.len(),
{
    if s.len() > 0 && s[s.len() - 1] == '%' {
        assert(e < s.len());
        lemma_trim_pct_len(s.drop_last(), e);
    } else {
        assert(e == s.len());
    }
}

/// Trimming removes exactly the separator that serialization appended, as
/// long as the payload itself does not end in `%`.
pub proof fn lemma_trim_pct_append(d: Seq<char>)
    requires
        d.len() == 0 || d[d.len() - 1] != '%',
    ensures
        trim_pct(d + seq!['%']) == d,
{
    let s = d + seq!['%'];
    lemma_trim_pct_len(s, d.len() as int);
    assert(trim_pct(s) =~= d);
}

/// True when `c` is a word character.
pub fn is_word_char_exec(c: char) -> (r: bool)
    ensures
        r == is_word_char(c),
{
    let u = c as u32;
    (48 <= u && u <= 57) || (65 <= u && u <= 90) || (97 <= u && u <= 122) || u == 95
}

/// True when `c` is a password character.
pub fn is_pass_char_exec(c: char) -> (r: bool)
    ensures
        r == is_pass_char(c),
{
    let u = c as u32;
    is_word_char_exec(c) || u == 37
}

/// True when `pat` occurs in `s` at offset `i`.
pub fn match_at(s: &str, i: usize, pat: &str) -> (r: bool)
    requires
        i <= s@.len(),
    ensures
        r == has_seq_at(s@, i as int, pat@),
{
    let n = s.unicode_len();
    let m = pat.unicode_len();
    if m > n - i {
        assert(!has_seq_at(s@, i as int, pat@));
        return false;
    }
    let mut j: usize = 0;
    while j < m
        invariant
            j <= m,
            i + m <= n,
            n == s@.len(),
            m == pat@.len(),
            forall|k: int| 0 <= k < j ==> s@[i + k] == pat@[k],
        decreases m - j,
    {
        if s.get_char(i + j) != pat.get_char(j) {
            assert(!has_seq_at(s@, i as int, pat@)) by {
                if has_seq_at(s@, i as int, pat@) {
                    assert(s@.subrange(i as int, i + pat@.len())[j as int] == pat@[j as int]);
                }
            }
            return false;
        }
        j += 1;
    }
    assert(s@.subrange(i as int, i + pat@.len()) =~= pat@);
    true
}

/// The end of the maximal run of word characters starting at `i`.
pub fn word_run_end(s: &str, i: usize) -> (e: usize)
    requires
        i <= s@.len(),
    ensures
        i <= e <= s@.len(),
        e - i == word_run_len(s@, i as int),
{
    let n = s.unicode_len();
    let mut e: usize = i;
    while e < n && is_word_char_exec(s.get_char(e))
        invariant
            i <= e <= n,
            n == s@.len(),
            forall|k: int| i <= k < e ==> is_word_char(#[trigger] s@[k]),
        decreases n - e,
    {
        e += 1;
    }
    proof {
        lemma_word_run_len(s@, i as int, e as int);
    }
    e
}

/// The end of the maximal run of password characters starting at `i`.
pub fn pass_run_end(s: &str, i: usize) -> (e: usize)
    requires
        i <= s@.len(),
    ensures
        i <= e <= s@.len(),
        e - i == pass_run_len(s@, i as int),
{
    let n = s.unicode_len();
    let mut e: usize = i;
    while e < n && is_pass_char_exec(s.get_char(e))
        invariant
            i <= e <= n,
            n == s@.len(),
            forall|k: int| i <= k < e ==> is_pass_char(#[trigger] s@[k]),
        decreases n - e,
    {
        e += 1;
    }
    proof {
        lemma_pass_run_len(s@, i as int, e as int);
    }
    e
}

} // verus!
