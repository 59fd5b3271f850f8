//! Character-level text helpers: conversion between strings and char
//! vectors, left-to-right pattern removal, whitespace trimming, and decimal
//! rendering of numbers. Everything here is specified over `Seq<char>`.

use vstd::prelude::*;
use vstd::string::StrSliceExecFns;

verus! {

/// The chars of `s`, in order.
pub fn chars_of(s: &str) -> (r: Vec<char>)
    ensures
        r@ == s@,
{
    let n = s.unicode_len();
    let mut r: Vec<char> = Vec::new();
    let mut i: usize = 0;
    while i < n
        invariant
            n as nat == s@.len(),
            i <= n,
            r@ == s@.subrange(0, i as int),
        decreases n - i,
    {
        let c = s.get_char(i);
        r.push(c);
        i = i + 1;
        proof {
            assert(r@ =~= s@.subrange(0, i as int));
        }
    }
    proof {
        assert(s@.subrange(0, n as int) =~= s@);
    }
    r
}

/// Relies on `String`'s `FromIterator<char>` impl: collecting an iterator
/// of chars yields the string whose chars are exactly those, in order.
#[verifier::external_body]
pub(crate) fn string_from_chars(v: &Vec<char>) -> (r: String)
    ensures
        r@ == v@,
{
    v.iter().collect()
}

/// `s` with every occurrence of `p` removed, scanning left to right and
/// never rescanning removed text (the semantics of replacing `p` by the
/// empty string).
pub open spec fn remove_seq(s: Seq<char>, p: Seq<char>) -> Seq<char>
    decreases s.len(),
{
    if p.len() == 0 || s.len() == 0 {
        s
    } else if p.len() <= s.len() && s.subrange(0, p.len() as int) == p {
        remove_seq(s.subrange(p.len() as int, s.len() as int), p)
    } else {
        seq![s[0]] + remove_seq(s.subrange(1, s.len() as int), p)
    }
}

/// Does `p` occur in `s` at position `i`?
fn starts_at(s: &Vec<char>, i: usize, p: &Vec<char>) -> (r: bool)
    requires
        i <= s@.len(),
    ensures
        r == (i as int + p@.len() <= s@.len() && s@.subrange(
            i as int,
            i as int + p@.len() as int,
        ) == p@),
{
    if s.len() - i < p.len() {
        return false;
    }
    let n = s.len();
    let mut j: usize = 0;
    while j < p.len()
        invariant
            n == s@.len(),
            i as int + p@.len() <= s@.len(),
            j <= p@.len(),
            forall|k: int| 0 <= k < j as int ==> s@[i as int + k] == p@[k],
        decreases p@.len() - j,
    {
        if s[i + j] != p[j] {
            proof {
                assert(s@.subrange(i as int, i as int + p@.len() as int)[j as int] == s@[i as int
                    + j as int]);
            }
            return false;
        }
        j = j + 1;
    }
    proof {
        assert(s@.subrange(i as int, i as int + p@.len() as int) =~= p@);
    }
    true
}

/// `s` with every occurrence of `p` removed, left to right.
pub fn remove_pattern(s: &Vec<char>, p: &Vec<char>) -> (r: Vec<char>)
    requires
        p@.len() > 0,
    ensures
        r@ == remove_seq(s@, p@),
{
    let mut out: Vec<char> = Vec::new();
    let mut i: usize = 0;
    proof {
        assert(s@.subrange(0, s@.len() as int) =~= s@);
        assert(out@ + remove_seq(s@, p@) =~= remove_seq(s@, p@));
    }
    while i < s.len()
        invariant
            i <= s@.len(),
            p@.len() > 0,
            remove_seq(s@, p@) == out@ + remove_seq(
                s@.subrange(i as int, s@.len() as int),
                p@,
            ),
        decreases s@.len() - i,
    {
        let ghost suf = s@.subrange(i as int, s@.len() as int);
        if starts_at(s, i, p) {
            proof {
                assert(suf.subrange(0, p@.len() as int) =~= s@.subrange(
                    i as int,
                    i as int + p@.len() as int,
                ));
                assert(suf.subrange(p@.len() as int, suf.len() as int) =~= s@.subrange(
                    i as int + p@.len() as int,
                    s@.len() as int,
                ));
                assert(remove_seq(suf, p@) == remove_seq(
                    s@.subrange(i as int + p@.len() as int, s@.len() as int),
                    p@,
                ));
            }
            i = i + p.len();
        } else {
            out.push(s[i]);
            proof {
                if p@.len() <= suf.len() {
                    assert(suf.subrange(0, p@.len() as int) =~= s@.subrange(
                        i as int,
                        i as int + p@.len() as int,
                    ));
                    assert(suf.subrange(0, p@.len() as int) != p@);
                }
                assert(suf[0] == s@[i as int]);
                assert(suf.subrange(1, suf.len() as int) =~= s@.subrange(
                    i as int + 1,
                    s@.len() as int,
                ));
                assert(remove_seq(suf, p@) == seq![s@[i as int]] + remove_seq(
                    s@.subrange(i as int + 1, s@.len() as int),
                    p@,
                ));
                assert(out@ + remove_seq(s@.subrange(i as int + 1, s@.len() as int), p@)
                    =~= out@.subrange(0, out@.len() - 1) + remove_seq(suf, p@));
            }
            i = i + 1;
        }
    }
    proof {
        assert(s@.subrange(s@.len() as int, s@.len() as int) =~= Seq::<char>::empty());
        assert(out@ + Seq::<char>::empty() =~= out@);
    }
    out
}

/// The ascii whitespace the response cleaner trims.
pub open spec fn is_ws_char(c: char) -> bool {
    c == ' ' || c == '\n' || c == '\t' || c == '\r'
}

fn is_ws(c: char) -> (r: bool)
    ensures
        r == is_ws_char(c),
{
    c == ' ' || c == '\n' || c == '\t' || c == '\r'
}

pub open spec fn trim_front_seq(s: Seq<char>) -> Seq<char>
    decreases s.len(),
{
    if s.len() > 0 && is_ws_char(s[0]) {
        trim_front_seq(s.subrange(1, s.len() as int))
    } else {
        s
    }
}

pub open spec fn trim_back_seq(s: Seq<char>) -> Seq<char>
    decreases s.len(),
{
    if s.len() > 0 && is_ws_char(s[s.len() - 1]) {
        trim_back_seq(s.subrange(0, s.len() - 1))
    } else {
        s
    }
}

/// `s` without leading and trailing ascii whitespace.
pub open spec fn trim_seq(s: Seq<char>) -> Seq<char> {
    trim_back_seq(trim_front_seq(s))
}

proof fn lemma_trim_front_at(s: Seq<char>, lo: int)
    requires
        0 <= lo <= s.len(),
        forall|k: int| 0 <= k < lo ==> is_ws_char(s[k]),
        lo == s.len() || !is_ws_char(s[lo]),
    ensures
        trim_front_seq(s) == s.subrange(lo, s.len() as int),
    decreases lo,
{
    if lo == 0 {
        assert(s.subrange(0, s.len() as int) =~= s);
    } else {
        let t = s.subrange(1, s.len() as int);
        lemma_trim_front_at(t, lo - 1);
        assert(t.subrange(lo - 1, t.len() as int) =~= s.subrange(lo, s.len() as int));
    }
}

proof fn lemma_trim_back_at(s: Seq<char>, hi: int)
    requires
        0 <= hi <= s.len(),
        forall|k: int| hi <= k < s.len() ==> is_ws_char(s[k]),
        hi == 0 || !is_ws_char(s[hi - 1]),
    ensures
        trim_back_seq(s) == s.subrange(0, hi),
    decreases s.len(),
{
    if hi == s.len() {
        assert(s.subrange(0, s.len() as int) =~= s);
    } else {
        let t = s.subrange(0, s.len() - 1);
        lemma_trim_back_at(t, hi);
        assert(t.subrange(0, hi) =~= s.subrange(0, hi));
    }
}

/// `s` without leading and trailing ascii whitespace.
pub fn trim_chars(s: &Vec<char>) -> (r: Vec<char>)
    ensures
        r@ == trim_seq(s@),
{
    let mut lo: usize = 0;
    while lo < s.len() && is_ws(s[lo])
        invariant
            lo <= s@.len(),
            forall|k: int| 0 <= k < lo as int ==> is_ws_char(s@[k]),
        decreases s@.len() - lo,
    {
        lo = lo + 1;
    }
    let mut hi: usize = s.len();
    while hi > lo && is_ws(s[hi - 1])
        invariant
            lo <= hi <= s@.len(),
            forall|k: int| 0 <= k < lo as int ==> is_ws_char(s@[k]),
            forall|k: int| hi as int <= k < s@.len() ==> is_ws_char(s@[k]),
        decreases hi,
    {
        hi = hi - 1;
    }
    let mut out: Vec<char> = Vec::new();
    let mut i: usize = lo;
    while i < hi
        invariant
            lo <= i <= hi <= s@.len(),
            out@ == s@.subrange(lo as int, i as int),
        decreases hi - i,
    {
        out.push(s[i]);
        i = i + 1;
        proof {
            assert(out@ =~= s@.subrange(lo as int, i as int));
        }
    }
    proof {
        let f = trim_front_seq(s@);
        if lo == s@.len() {
            lemma_trim_front_at(s@, lo as int);
            assert(f =~= Seq::<char>::empty());
            lemma_trim_back_at(f, 0);
            assert(out@ =~= s@.subrange(lo as int, lo as int));
        } else if hi == lo {
            // everything from lo on is whitespace, but s[lo] is not: impossible
            // unless hi > lo; hi == lo forces lo == s.len() handled above, or
            // the back scan stopped at lo with s[lo..] all whitespace.
            lemma_trim_front_at(s@, lo as int);
            assert(!is_ws_char(s@[lo as int]));
            assert(is_ws_char(s@[lo as int]));
        } else {
            lemma_trim_front_at(s@, lo as int);
            assert(f == s@.subrange(lo as int, s@.len() as int));
            lemma_trim_back_at(f, hi as int - lo as int);
            assert(f.subrange(0, hi as int - lo as int) =~= s@.subrange(lo as int, hi as int));
        }
    }
    out
}

/// A pattern longer than the text never occurs in it.
pub proof fn lemma_remove_too_short(s: Seq<char>, p: Seq<char>)
    requires
        s.len() < p.len(),
    ensures
        remove_seq(s, p) == s,
    decreases s.len(),
{
    if s.len() > 0 {
        lemma_remove_too_short(s.subrange(1, s.len() as int), p);
        assert(seq![s[0]] + s.subrange(1, s.len() as int) =~= s);
    }
}

/// Removing `p` from `p + t` removes the leading occurrence first.
pub proof fn lemma_remove_prefix(t: Seq<char>, p: Seq<char>)
    requires
        p.len() > 0,
    ensures
        remove_seq(p + t, p) == remove_seq(t, p),
{
    let s = p + t;
    assert(s.subrange(0, p.len() as int) =~= p);
    assert(s.subrange(p.len() as int, s.len() as int) =~= t);
}

/// Text that nowhere holds the pattern's first character passes through
/// removal unchanged, and a removal after it starts where it ends.
pub proof fn lemma_remove_skip_clean(a: Seq<char>, t: Seq<char>, p: Seq<char>)
    requires
        p.len() > 0,
        forall|i: int| 0 <= i < a.len() ==> a[i] != p[0],
    ensures
        remove_seq(a + t, p) == a + remove_seq(t, p),
    decreases a.len(),
{
    let s = a + t;
    if a.len() == 0 {
        assert(s =~= t);
        assert(a + remove_seq(t, p) =~= remove_seq(t, p));
    } else {
        assert(s.len() > 0);
        assert(s[0] == a[0]);
        if p.len() <= s.len() {
            assert(s.subrange(0, p.len() as int)[0] == s[0]);
            assert(s.subrange(0, p.len() as int) != p);
        }
        let a1 = a.subrange(1, a.len() as int);
        assert(s.subrange(1, s.len() as int) =~= a1 + t);
        lemma_remove_skip_clean(a1, t, p);
        assert(seq![s[0]] + (a1 + remove_seq(t, p)) =~= a + remove_seq(t, p));
    }
}

/// Text that nowhere holds the pattern's first character is unchanged.
pub proof fn lemma_remove_clean(s: Seq<char>, p: Seq<char>)
    requires
        p.len() > 0,
        forall|i: int| 0 <= i < s.len() ==> s[i] != p[0],
    ensures
        remove_seq(s, p) == s,
{
    lemma_remove_skip_clean(s, Seq::<char>::empty(), p);
    assert(s + Seq::<char>::empty() =~= s);
}

/// The pattern alone is removed entirely.
pub proof fn lemma_remove_self(p: Seq<char>)
    requires
        p.len() > 0,
    ensures
        remove_seq(p, p) == Seq::<char>::empty(),
{
    lemma_remove_prefix(Seq::<char>::empty(), p);
    assert(p + Seq::<char>::empty() =~= p);
}

/// A trailing whitespace character does not change the trimmed text.
pub proof fn lemma_trim_ws_suffix(s: Seq<char>, c: char)
    requires
        is_ws_char(c),
    ensures
        trim_seq(s.push(c)) == trim_seq(s),
    decreases s.len(),
{
    if s.len() == 0 {
        assert(s.push(c)[0] == c);
        assert(s.push(c).subrange(1, 1) =~= Seq::<char>::empty());
        assert(trim_front_seq(Seq::<char>::empty()) == Seq::<char>::empty());
        assert(trim_back_seq(Seq::<char>::empty()) == Seq::<char>::empty());
        assert(trim_front_seq(s.push(c)) == Seq::<char>::empty());
        assert(trim_front_seq(s) =~= Seq::<char>::empty());
    } else if is_ws_char(s[0]) {
        let s1 = s.subrange(1, s.len() as int);
        assert(s.push(c)[0] == s[0]);
        assert(s.push(c).subrange(1, s.len() as int + 1) =~= s1.push(c));
        lemma_trim_ws_suffix(s1, c);
    } else {
        assert(s.push(c)[0] == s[0]);
        assert(trim_front_seq(s.push(c)) == s.push(c));
        assert(trim_front_seq(s) == s);
        assert(s.push(c)[s.push(c).len() - 1] == c);
        assert(s.push(c).subrange(0, s.len() as int) =~= s);
    }
}


/// No window of `s` equals `p`.
pub open spec fn no_occurrence(s: Seq<char>, p: Seq<char>) -> bool {
    forall|i: int| 0 <= i <= s.len() - p.len() ==> #[trigger] s.subrange(i, i + p.len() as int) != p
}

/// Text without an occurrence of the pattern passes through unchanged.
pub proof fn lemma_remove_no_occurrence(s: Seq<char>, p: Seq<char>)
    requires
        p.len() > 0,
        no_occurrence(s, p),
    ensures
        remove_seq(s, p) == s,
    decreases s.len(),
{
    if s.len() > 0 {
        if p.len() <= s.len() {
            let i0: int = 0;
            assert(s.subrange(i0, i0 + p.len() as int) != p);
            assert(s.subrange(0, p.len() as int) =~= s.subrange(i0, i0 + p.len() as int));
        }
        let t = s.subrange(1, s.len() as int);
        assert forall|i: int|
            0 <= i <= t.len() - p.len() implies #[trigger] t.subrange(i, i + p.len() as int)
            != p by {
            assert(t.subrange(i, i + p.len() as int) =~= s.subrange(
                i + 1,
                i + 1 + p.len() as int,
            ));
        }
        lemma_remove_no_occurrence(t, p);
        assert(seq![s[0]] + t =~= s);
    }
}

/// A leading whitespace character does not change the trimmed text.
pub proof fn lemma_trim_ws_prefix(s: Seq<char>, c: char)
    requires
        is_ws_char(c),
    ensures
        trim_seq(seq![c] + s) == trim_seq(s),
{
    let w = seq![c] + s;
    assert(w[0] == c);
    assert(w.subrange(1, w.len() as int) =~= s);
}

/// The decimal digit character for `d`.
pub open spec fn digit_char(d: int) -> char {
    seq!['0', '1', '2', '3', '4', '5', '6', '7', '8', '9'][d]
}

/// The decimal rendering of `n`, without leading zeros (`0` for zero).
pub open spec fn dec_str(n: nat) -> Seq<char>
    decreases n,
{
    if n < 10 {
        seq![digit_char(n as int)]
    } else {
        dec_str(n / 10) + seq![digit_char((n % 10) as int)]
    }
}

fn digit_of(d: u64) -> (r: char)
    requires
        d < 10,
    ensures
        r == digit_char(d as int),
{
    if d == 0 {
        '0'
    } else if d == 1 {
        '1'
    } else if d == 2 {
        '2'
    } else if d == 3 {
        '3'
    } else if d == 4 {
        '4'
    } else if d == 5 {
        '5'
    } else if d == 6 {
        '6'
    } else if d == 7 {
        '7'
    } else if d == 8 {
        '8'
    } else {
        '9'
    }
}

/// The decimal rendering of `n`.
pub fn u64_to_dec(n: u64) -> (r: String)
    ensures
        r@ == dec_str(n as nat),
{
    let mut rev: Vec<char> = Vec::new();
    let mut m: u64 = n;
    proof {
        assert(rev@.reverse() =~= Seq::<char>::empty());
        assert(dec_str(n as nat) + Seq::<char>::empty() =~= dec_str(n as nat));
    }
    loop
        invariant_except_break
            dec_str(n as nat) == dec_str(m as nat) + rev@.reverse(),
        ensures
            dec_str(n as nat) == rev@.reverse(),
        decreases m,
    {
        let ghost old_m = m as nat;
        let ghost old_rev = rev@;
        let d = m % 10;
        rev.push(digit_of(d));
        m = m / 10;
        proof {
            if old_m >= 10 {
                assert(dec_str(old_m) == dec_str(old_m / 10) + seq![digit_char((old_m % 10) as int)]);
                assert(rev@.reverse() =~= seq![digit_char((old_m % 10) as int)] + old_rev.reverse());
                assert(dec_str(m as nat) + rev@.reverse() =~= (dec_str(m as nat) + seq![
                    digit_char((old_m % 10) as int),
                ]) + old_rev.reverse());
            } else {
                assert(dec_str(old_m) == seq![digit_char(old_m as int)]);
                assert(rev@.reverse() =~= seq![digit_char(old_m as int)] + old_rev.reverse());
                assert(dec_str(old_m) + old_rev.reverse() =~= rev@.reverse());
                assert(dec_str(n as nat) == rev@.reverse());
            }
        }
        if m == 0 {
            break;
        }
    }
    let mut out: Vec<char> = Vec::new();
    let mut i: usize = rev.len();
    while i > 0
        invariant
            i <= rev@.len(),
            out@ == rev@.subrange(i as int, rev@.len() as int).reverse(),
        decreases i,
    {
        i = i - 1;
        out.push(rev[i]);
        proof {
            assert(out@ =~= rev@.subrange(i as int, rev@.len() as int).reverse());
        }
    }
    proof {
        assert(rev@.subrange(0, rev@.len() as int) =~= rev@);
    }
    string_from_chars(&out)
}

/// Character-for-character string equality.
pub fn str_eq(a: &str, b: &str) -> (r: bool)
    ensures
        r == (a@ == b@),
{
    let va = chars_of(a);
    let vb = chars_of(b);
    if va.len() != vb.len() {
        return false;
    }
    let mut i: usize = 0;
    while i < va.len()
        invariant
            va@ == a@,
            vb@ == b@,
            va@.len() == vb@.len(),
            i <= va@.len(),
            forall|j: int| 0 <= j < i as int ==> a@[j] == b@[j],
        decreases va@.len() - i,
    {
        if va[i] != vb[i] {
            return false;
        }
        i = i + 1;
    }
    proof {
        assert(a@ =~= b@);
    }
    true
}

/// The first `k` chars of `s`, or all of `s` where it is shorter: the short
/// form of a commit id.
pub open spec fn prefix_seq(s: Seq<char>, k: int) -> Seq<char> {
    if s.len() <= k {
        s
    } else {
        s.subrange(0, k)
    }
}

/// The first `k` chars of `s`, or all of `s` where it is shorter.
pub fn prefix_chars(s: &str, k: usize) -> (r: String)
    ensures
        r@ == prefix_seq(s@, k as int),
{
    let v = chars_of(s);
    let mut out: Vec<char> = Vec::new();
    let n = if v.len() <= k {
        v.len()
    } else {
        k
    };
    let mut i: usize = 0;
    while i < n
        invariant
            n <= v@.len(),
            i <= n,
            v@ == s@,
            out@ == s@.subrange(0, i as int),
        decreases n - i,
    {
        out.push(v[i]);
        i = i + 1;
        proof {
            assert(out@ =~= s@.subrange(0, i as int));
        }
    }
    proof {
        if s@.len() <= k as int {
            assert(s@.subrange(0, s@.len() as int) =~= s@);
        }
    }
    string_from_chars(&out)
}

} // verus!
