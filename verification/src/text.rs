//! Text primitives of the command grammar: whitespace, splitting on a
//! separator, and whitespace-delimited tokens.
//!
//! Texts are modelled as sequences of characters. Every executable function
//! here works on `&str` and hands out slices of its argument, never copies.

use vstd::prelude::*;
use vstd::string::StrSliceExecFns;

verus! {

/// Whether `c` is whitespace: whether it has the Unicode property
/// `White_Space`, as `char::is_whitespace` decides it.
pub uninterp spec fn is_white_space(c: char) -> bool;

/// `char::is_whitespace` is taken on trust: it is a function of the character
/// alone, and [`is_white_space`] names what it returns.
pub assume_specification[ char::is_whitespace ](c: char) -> (b: bool)
    ensures
        b == is_white_space(c),
;

/// Whether every character of `s` is whitespace; true of the empty text.
pub open spec fn is_blank(s: Seq<char>) -> bool {
    forall|i: int| 0 <= i < s.len() ==> is_white_space(#[trigger] s[i])
}

/// Whether `pat` stands in `s` at index `i`.
pub open spec fn occurs_at(s: Seq<char>, pat: Seq<char>, i: int) -> bool {
    &&& 0 <= i
    &&& i + pat.len() <= s.len()
    &&& s.subrange(i, i + pat.len()) == pat
}

/// The least index at which `pat` stands in `s`; `s.len()` where it stands
/// nowhere.
pub open spec fn first_match(s: Seq<char>, pat: Seq<char>) -> int
    decreases s.len(),
{
    if s.len() == 0 || occurs_at(s, pat, 0) {
        0
    } else {
        1 + first_match(s.skip(1), pat)
    }
}

/// The pieces of `s` between the occurrences of the separator `pat`, found
/// from the left and never overlapping. There is one piece more than there
/// are separators, so the result is never empty, and a piece may be. An empty
/// separator separates nothing.
pub open spec fn split(s: Seq<char>, pat: Seq<char>) -> Seq<Seq<char>>
    decreases s.len(),
{
    let i = first_match(s, pat);
    if pat.len() > 0 && occurs_at(s, pat, i) {
        seq![s.take(i)] + split(s.skip(i + pat.len()), pat)
    } else {
        seq![s]
    }
}

/// The length of the longest prefix of `s` whose characters are all
/// whitespace (`blank`) or all not whitespace (`!blank`).
pub open spec fn run_len(s: Seq<char>, blank: bool) -> int
    decreases s.len(),
{
    if s.len() > 0 && is_white_space(s[0]) == blank {
        1 + run_len(s.skip(1), blank)
    } else {
        0
    }
}

/// The tokens of `s`: its maximal runs of characters that are not whitespace,
/// from left to right.
pub open spec fn tokens(s: Seq<char>) -> Seq<Seq<char>>
    decreases s.len(),
{
    let a = run_len(s, true);
    let b = run_len(s.skip(a), false);
    if b > 0 {
        proof {
            lemma_run_len_bounds(s, true);
            lemma_run_len_bounds(s.skip(a), false);
        }
        seq![s.subrange(a, a + b)] + tokens(s.skip(a + b))
    } else {
        Seq::empty()
    }
}

/// The texts that a sequence of string slices stands for.
pub open spec fn texts(parts: Seq<&str>) -> Seq<Seq<char>> {
    parts.map_values(|p: &str| p@)
}

/// A run is no longer than the text it starts.
pub proof fn lemma_run_len_bounds(s: Seq<char>, blank: bool)
    ensures
        0 <= run_len(s, blank) <= s.len(),
    decreases s.len(),
{
    if s.len() > 0 && is_white_space(s[0]) == blank {
        lemma_run_len_bounds(s.skip(1), blank);
    }
}

/// A run ends at `k` where the first `k` characters belong to it and the next
/// one, if there is one, does not.
pub proof fn lemma_run_len_is(s: Seq<char>, blank: bool, k: int)
    requires
        0 <= k <= s.len(),
        forall|j: int| 0 <= j < k ==> is_white_space(#[trigger] s[j]) == blank,
        k < s.len() ==> is_white_space(s[k]) != blank,
    ensures
        run_len(s, blank) == k,
    decreases s.len(),
{
    if k > 0 {
        let rest = s.skip(1);
        assert forall|j: int| 0 <= j < k - 1 implies is_white_space(#[trigger] rest[j])
            == blank by {
            assert(rest[j] == s[j + 1]);
        }
        lemma_run_len_is(rest, blank, k - 1);
    }
}

/// An occurrence that no other precedes is the first match.
pub proof fn lemma_first_match_is(s: Seq<char>, pat: Seq<char>, k: int)
    requires
        occurs_at(s, pat, k),
        forall|j: int| 0 <= j < k ==> !occurs_at(s, pat, j),
    ensures
        first_match(s, pat) == k,
    decreases s.len(),
{
    if k > 0 {
        let rest = s.skip(1);
        assert(s.len() > 0);
        assert(!occurs_at(s, pat, 0));
        lemma_occurs_at_skip(s, pat, 1, k - 1);
        assert forall|j: int| 0 <= j < k - 1 implies !occurs_at(rest, pat, j) by {
            lemma_occurs_at_skip(s, pat, 1, j);
        }
        lemma_first_match_is(rest, pat, k - 1);
    }
}

/// Occurrences in a suffix are the occurrences in the whole text, shifted.
pub proof fn lemma_occurs_at_skip(s: Seq<char>, pat: Seq<char>, from: int, i: int)
    requires
        0 <= from <= s.len(),
        0 <= i,
    ensures
        occurs_at(s.skip(from), pat, i) == occurs_at(s, pat, from + i),
{
    if i + pat.len() <= s.len() - from {
        assert(s.skip(from).subrange(i, i + pat.len()) =~= s.subrange(
            from + i,
            from + i + pat.len(),
        ));
    }
}

/// A split is never empty, and its first piece is a prefix of the text.
pub proof fn lemma_split_first(s: Seq<char>, pat: Seq<char>)
    ensures
        split(s, pat).len() >= 1,
        split(s, pat)[0].is_prefix_of(s),
{
}

/// Whether `pat` stands in `s` at character index `i`, where `n` and `m` are
/// the lengths of `s` and `pat`.
fn matches_at(s: &str, n: usize, i: usize, pat: &str, m: usize) -> (b: bool)
    requires
        n == s@.len(),
        m == pat@.len(),
    ensures
        b == occurs_at(s@, pat@, i as int),
{
    if m > n || i > n - m {
        return false;
    }
    let mut k: usize = 0;
    while k < m
        invariant
            n == s@.len(),
            m == pat@.len(),
            i + m <= n,
            k <= m,
            forall|j: int| 0 <= j < k ==> s@[i + j] == pat@[j],
        decreases m - k,
    {
        if s.get_char(i + k) != pat.get_char(k) {
            assert(s@.subrange(i as int, i + m)[k as int] != pat@[k as int]);
            return false;
        }
        k = k + 1;
    }
    assert(s@.subrange(i as int, i + m) =~= pat@);
    true
}

/// Whether two slices hold the same text.
pub fn same_text(a: &str, b: &str) -> (same: bool)
    ensures
        same == (a@ == b@),
{
    let n = a.unicode_len();
    let m = b.unicode_len();
    if n != m {
        return false;
    }
    let found = matches_at(a, n, 0, b, m);
    assert(a@.subrange(0, n as int) =~= a@);
    found
}

/// Splits `s` at every occurrence of the separator `pat`.
pub fn split_str<'a>(s: &'a str, pat: &str) -> (parts: Vec<&'a str>)
    ensures
        texts(parts@) == split(s@, pat@),
{
    let n = s.unicode_len();
    let m = pat.unicode_len();
    let mut parts: Vec<&'a str> = Vec::new();
    if m == 0 {
        parts.push(s);
        assert(texts(parts@) =~= seq![s@]);
        return parts;
    }
    let mut start: usize = 0;
    let mut i: usize = 0;
    assert(s@.skip(0) =~= s@);
    assert(texts(parts@) + split(s@, pat@) =~= split(s@, pat@));
    while m <= n && i <= n - m
        invariant
            n == s@.len(),
            m == pat@.len(),
            m > 0,
            start <= i,
            start <= n,
            split(s@, pat@) == texts(parts@) + split(s@.skip(start as int), pat@),
            forall|j: int| start <= j < i ==> !occurs_at(s@, pat@, j),
        decreases n - i,
    {
        if matches_at(s, n, i, pat, m) {
            let part = s.substring_char(start, i);
            proof {
                let tail = s@.skip(start as int);
                lemma_occurs_at_skip(s@, pat@, start as int, i - start);
                assert forall|j: int| 0 <= j < i - start implies !occurs_at(tail, pat@, j) by {
                    lemma_occurs_at_skip(s@, pat@, start as int, j);
                }
                lemma_first_match_is(tail, pat@, i - start);
                assert(tail.take(i - start) =~= part@);
                assert(tail.skip(i - start + m) =~= s@.skip(i + m));
                assert(texts(parts@.push(part)) =~= texts(parts@).push(part@));
                assert(texts(parts@).push(part@) + split(s@.skip(i + m), pat@) =~= texts(parts@)
                    + split(tail, pat@));
            }
            parts.push(part);
            i = i + m;
            start = i;
        } else {
            i = i + 1;
        }
    }
    let part = s.substring_char(start, n);
    proof {
        let tail = s@.skip(start as int);
        let k = first_match(tail, pat@);
        if occurs_at(tail, pat@, k) {
            lemma_occurs_at_skip(s@, pat@, start as int, k);
        }
        assert(tail =~= part@);
        assert(texts(parts@.push(part)) =~= texts(parts@).push(part@));
    }
    parts.push(part);
    parts
}

/// The end of the run that starts at character index `from` of `s`, where `n`
/// is the length of `s`.
fn run_end(s: &str, n: usize, from: usize, blank: bool) -> (to: usize)
    requires
        n == s@.len(),
        from <= n,
    ensures
        to == from + run_len(s@.skip(from as int), blank),
        from <= to <= n,
{
    let mut i: usize = from;
    while i < n && s.get_char(i).is_whitespace() == blank
        invariant
            n == s@.len(),
            from <= i <= n,
            forall|j: int| from <= j < i ==> is_white_space(#[trigger] s@[j]) == blank,
        decreases n - i,
    {
        i = i + 1;
    }
    proof {
        let tail = s@.skip(from as int);
        assert forall|j: int| 0 <= j < i - from implies is_white_space(#[trigger] tail[j])
            == blank by {
            assert(tail[j] == s@[from + j]);
        }
        lemma_run_len_is(tail, blank, i - from);
    }
    i
}

/// Takes the first token off `s`: hands out the token and what follows it, or
/// `None` where `s` holds no token.
pub fn next_token<'a>(s: &'a str) -> (r: Option<(&'a str, &'a str)>)
    ensures
        r is None <==> tokens(s@).len() == 0,
        r matches Some((token, rest)) ==> {
            &&& token@ == tokens(s@).first()
            &&& tokens(rest@) == tokens(s@).drop_first()
            &&& rest@ == s@.skip(run_len(s@, true) + token@.len())
        },
{
    let n = s.unicode_len();
    assert(s@.skip(0) =~= s@);
    let a = run_end(s, n, 0, true);
    let b = run_end(s, n, a, false);
    if a == b {
        None
    } else {
        let token = s.substring_char(a, b);
        let rest = s.substring_char(b, n);
        proof {
            assert(rest@ =~= s@.skip(b as int));
            assert((seq![token@] + tokens(rest@)).drop_first() =~= tokens(rest@));
        }
        Some((token, rest))
    }
}

} // verus!
