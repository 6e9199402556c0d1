//! Small verified helpers on strings: conversion between `String` and
//! character vectors, a lexicographic order on character sequences and a
//! sorted, duplicate-free collection of strings.
use vstd::prelude::*;

verus! {

/// Appends one character to a `String` (`String::push`).
#[verifier::external_body]
pub(crate) fn push_char(s: &mut String, c: char)
    ensures
        final(s)@ == old(s)@.push(c),
{
    s.push(c);
}

/// Appends a string slice to a `String` (`String::push_str`).
#[verifier::external_body]
pub(crate) fn push_str(s: &mut String, t: &str)
    ensures
        final(s)@ == old(s)@ + t@,
{
    s.push_str(t);
}

/// Whether two string slices hold the same text.
pub(crate) fn str_eq(a: &str, b: &str) -> (r: bool)
    ensures
        r == (a@ == b@),
{
    let ca = chars_of(a);
    let cb = chars_of(b);
    if ca.len() != cb.len() {
        return false;
    }
    let mut i: usize = 0;
    while i < ca.len()
        invariant
            ca@ == a@,
            cb@ == b@,
            ca@.len() == cb@.len(),
            i <= ca@.len(),
            forall|j: int| 0 <= j < i ==> ca@[j] == cb@[j],
        decreases ca@.len() - i,
    {
        if ca[i] != cb[i] {
            return false;
        }
        i = i + 1;
    }
    assert(ca@ =~= cb@);
    true
}

/// The characters of a string slice, in order.
pub fn chars_of(s: &str) -> (r: Vec<char>)
    ensures
        r@ == s@,
{
    let mut v: Vec<char> = Vec::new();
    for c in it: s.chars()
        invariant
            v@ == it.seq().take(it.index() as int),
    {
        v.push(c);
    }
    v
}

/// Builds a `String` from the characters `v[lo..hi]`.
pub fn string_of_range(v: &Vec<char>, lo: usize, hi: usize) -> (r: String)
    requires
        lo <= hi <= v@.len(),
    ensures
        r@ == v@.subrange(lo as int, hi as int),
{
    let mut s = String::new();
    let mut i = lo;
    while i < hi
        invariant
            lo <= i <= hi <= v@.len(),
            s@ == v@.subrange(lo as int, i as int),
        decreases hi - i,
    {
        push_char(&mut s, v[i]);
        i = i + 1;
    }
    s
}

/// Builds a `String` from a character vector.
pub fn string_of(v: &Vec<char>) -> (r: String)
    ensures
        r@ == v@,
{
    let r = string_of_range(v, 0, v.len());
    assert(v@.subrange(0, v@.len() as int) == v@);
    r
}

/// The characters of a sequence of strings.
pub open spec fn views(v: Seq<String>) -> Seq<Seq<char>> {
    v.map_values(|s: String| s@)
}

/// A copy of a vector of strings.
pub fn clone_strings(v: &Vec<String>) -> (r: Vec<String>)
    ensures
        views(r@) == views(v@),
{
    let mut r: Vec<String> = Vec::new();
    let mut i: usize = 0;
    while i < v.len()
        invariant
            i <= v@.len(),
            r@.len() == i,
            views(r@) == views(v@).take(i as int),
        decreases v@.len() - i,
    {
        let c = v[i].clone();
        assert(c@ == v@[i as int]@);
        let ghost old_r = r@;
        r.push(c);
        assert(r@ == old_r.push(c));
        i = i + 1;
        assert forall|j: int| 0 <= j < i implies #[trigger] views(r@)[j] == views(v@)[j] by {
            if j < i - 1 {
                assert(views(old_r)[j] == views(v@).take(i - 1)[j]);
                assert(r@[j] == old_r[j]);
            } else {
                assert(r@[j] == c);
            }
        }
        assert(views(r@) =~= views(v@).take(i as int));
    }
    assert(views(v@).take(v@.len() as int) == views(v@));
    r
}

/// Lexicographic order on character sequences, comparing code points.  On
/// `String` values this is the order of `Ord for String`, since UTF-8
/// preserves the order of code points.
pub open spec fn seq_lt(a: Seq<char>, b: Seq<char>) -> bool
    decreases a.len(),
{
    if a.len() == 0 {
        b.len() > 0
    } else if b.len() == 0 {
        false
    } else if a[0] != b[0] {
        a[0] < b[0]
    } else {
        seq_lt(a.drop_first(), b.drop_first())
    }
}

pub proof fn lemma_seq_lt_irreflexive(a: Seq<char>)
    ensures
        !seq_lt(a, a),
    decreases a.len(),
{
    if a.len() > 0 {
        lemma_seq_lt_irreflexive(a.drop_first());
    }
}

pub proof fn lemma_seq_lt_transitive(a: Seq<char>, b: Seq<char>, c: Seq<char>)
    requires
        seq_lt(a, b),
        seq_lt(b, c),
    ensures
        seq_lt(a, c),
    decreases a.len(),
{
    if a.len() > 0 && b.len() > 0 && c.len() > 0 && a[0] == b[0] && b[0] == c[0] {
        lemma_seq_lt_transitive(a.drop_first(), b.drop_first(), c.drop_first());
    }
}

pub proof fn lemma_seq_lt_total(a: Seq<char>, b: Seq<char>)
    ensures
        a == b || seq_lt(a, b) || seq_lt(b, a),
    decreases a.len(),
{
    if a.len() > 0 && b.len() > 0 && a[0] == b[0] {
        lemma_seq_lt_total(a.drop_first(), b.drop_first());
        if a.drop_first() == b.drop_first() {
            assert(a == seq![a[0]] + a.drop_first());
            assert(b == seq![b[0]] + b.drop_first());
        }
    } else if a.len() == 0 && b.len() == 0 {
        assert(a == b);
    }
}

/// Compares two character vectors in the order `seq_lt`.
pub fn chars_lt(a: &Vec<char>, b: &Vec<char>) -> (r: bool)
    ensures
        r == seq_lt(a@, b@),
{
    let mut i: usize = 0;
    assert(a@.skip(0) == a@);
    assert(b@.skip(0) == b@);
    while i < a.len() && i < b.len() && a[i] == b[i]
        invariant
            i <= a@.len(),
            i <= b@.len(),
            a@.take(i as int) == b@.take(i as int),
            seq_lt(a@, b@) == seq_lt(a@.skip(i as int), b@.skip(i as int)),
        decreases a@.len() - i,
    {
        assert(a@.skip(i as int).drop_first() == a@.skip(i + 1));
        assert(b@.skip(i as int).drop_first() == b@.skip(i + 1));
        assert(a@.take(i + 1) == a@.take(i as int).push(a@[i as int]));
        assert(b@.take(i + 1) == b@.take(i as int).push(b@[i as int]));
        i = i + 1;
    }
    if i < a.len() && i < b.len() {
        assert(a@.skip(i as int)[0] == a@[i as int]);
        assert(b@.skip(i as int)[0] == b@[i as int]);
        a[i] < b[i]
    } else {
        i >= a.len() && i < b.len()
    }
}

/// Compares two strings in the order `seq_lt`.
pub fn string_lt(a: &String, b: &String) -> (r: bool)
    ensures
        r == seq_lt(a@, b@),
{
    let ca = chars_of(a.as_str());
    let cb = chars_of(b.as_str());
    chars_lt(&ca, &cb)
}

/// A sequence of strings that is strictly increasing in `seq_lt`.
pub open spec fn strictly_sorted(s: Seq<Seq<char>>) -> bool {
    forall|i: int, j: int| 0 <= i < j < s.len() ==> seq_lt(#[trigger] s[i], #[trigger] s[j])
}

/// Inserts `x` into a strictly sorted vector unless it is already there.
pub fn insert_sorted_unique(v: &mut Vec<String>, x: String)
    requires
        strictly_sorted(views(old(v)@)),
    ensures
        strictly_sorted(views(final(v)@)),
        views(final(v)@).to_set() == views(old(v)@).to_set().insert(x@),
{
    let ghost old_views = views(v@);
    let mut k: usize = 0;
    while k < v.len() && string_lt(&v[k], &x)
        invariant
            k <= v@.len(),
            views(v@) == old_views,
            strictly_sorted(old_views),
            forall|j: int| 0 <= j < k ==> seq_lt(#[trigger] old_views[j], x@),
        decreases v@.len() - k,
    {
        k = k + 1;
    }
    if k < v.len() && v[k] == x {
        assert(old_views.to_set().insert(x@) =~= old_views.to_set()) by {
            assert(old_views[k as int] == x@);
        }
        return;
    }
    proof {
        if k < v@.len() {
            lemma_seq_lt_total(old_views[k as int], x@);
        }
    }
    v.insert(k, x);
    let ghost nv = views(v@);
    assert(nv == old_views.insert(k as int, x@));
    assert forall|i: int, j: int| 0 <= i < j < nv.len() implies seq_lt(#[trigger] nv[i], #[trigger] nv[j]) by {
        if j < k {
        } else if j == k {
        } else if i < k {
            assert(nv[j] == old_views[j - 1]);
            if j - 1 > k {
                lemma_seq_lt_transitive(x@, old_views[k as int], old_views[j - 1]);
            }
            lemma_seq_lt_transitive(nv[i], x@, nv[j]);
        } else if i == k {
            if j - 1 > k {
                lemma_seq_lt_transitive(x@, old_views[k as int], old_views[j - 1]);
            }
        } else {
        }
    }
    assert(nv.to_set() =~= old_views.to_set().insert(x@)) by {
        assert forall|s: Seq<char>| nv.to_set().contains(s) implies old_views.to_set().insert(
            x@,
        ).contains(s) by {
            let i = choose|i: int| 0 <= i < nv.len() && nv[i] == s;
            if i < k {
                assert(old_views[i] == s);
            } else if i > k {
                assert(old_views[i - 1] == s);
            }
        }
        assert forall|s: Seq<char>| old_views.to_set().insert(x@).contains(s) implies nv.to_set().contains(s) by {
            if s == x@ {
                assert(nv[k as int] == s);
            } else {
                let i = choose|i: int| 0 <= i < old_views.len() && old_views[i] == s;
                if i < k {
                    assert(nv[i] == s);
                } else {
                    assert(nv[i + 1] == s);
                }
            }
        }
    }
}

/// The strings of `v`, sorted in `seq_lt` order with duplicates removed
/// (what `sort` followed by `dedup` gives on a `Vec<String>`).
pub fn sorted_unique(v: Vec<String>) -> (r: Vec<String>)
    ensures
        strictly_sorted(views(r@)),
        views(r@).to_set() == views(v@).to_set(),
{
    let mut r: Vec<String> = Vec::new();
    let mut i: usize = 0;
    let ghost vv = views(v@);
    assert(views(r@).to_set() =~= vv.take(0).to_set());
    while i < v.len()
        invariant
            i <= v@.len(),
            vv == views(v@),
            strictly_sorted(views(r@)),
            views(r@).to_set() == vv.take(i as int).to_set(),
        decreases v@.len() - i,
    {
        let x = v[i].clone();
        insert_sorted_unique(&mut r, x);
        assert(vv.take(i + 1) == vv.take(i as int).push(vv[i as int]));
        assert(vv.take(i + 1).to_set() =~= vv.take(i as int).to_set().insert(vv[i as int])) by {
            vv.take(i as int).lemma_push_to_set_commute(vv[i as int]);
        }
        i = i + 1;
    }
    assert(vv.take(v@.len() as int) == vv);
    r
}

/// Decimal digits of a natural number.
pub open spec fn decimal(n: nat) -> Seq<char>
    decreases n,
{
    if n < 10 {
        seq![digit_char((n % 10) as nat)]
    } else {
        decimal(n / 10).push(digit_char((n % 10) as nat))
    }
}

pub open spec fn digit_char(d: nat) -> char {
    if d == 0 {
        '0'
    } else if d == 1 {
        '1'
    } else if d == 2 {
        '2'
    } else if d == 3 {
        '3'
    } else if d == 4 {
        '4'
    } else if d == 5 {
        '5'
    } else if d == 6 {
        '6'
    } else if d == 7 {
        '7'
    } else if d == 8 {
        '8'
    } else {
        '9'
    }
}

pub fn digit(d: u128) -> (c: char)
    requires
        d < 10,
    ensures
        c == digit_char(d as nat),
{
    if d == 0 {
        '0'
    } else if d == 1 {
        '1'
    } else if d == 2 {
        '2'
    } else if d == 3 {
        '3'
    } else if d == 4 {
        '4'
    } else if d == 5 {
        '5'
    } else if d == 6 {
        '6'
    } else if d == 7 {
        '7'
    } else if d == 8 {
        '8'
    } else {
        '9'
    }
}

/// The decimal representation of `n` (what `format!("{n}")` prints).
pub fn decimal_string(n: u128) -> (r: String)
    ensures
        r@ == decimal(n as nat),
    decreases n,
{
    if n < 10 {
        let mut s = String::new();
        push_char(&mut s, digit(n));
        s
    } else {
        let mut s = decimal_string(n / 10);
        push_char(&mut s, digit(n % 10));
        s
    }
}

} // verus!
