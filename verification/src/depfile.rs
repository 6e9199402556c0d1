//! Reading the dependencies of an output from a GCC/Make depfile.
//!
//! The text is read byte by byte: a backslash, optional blanks and a line
//! break join two lines; every other byte stands for the character with the
//! same number.  Lines that are empty or start with `#` are skipped; on the
//! others the first colon that no backslash escapes splits targets from
//! dependencies, and the words on either side are read from the UTF-8 bytes
//! of that text, a backslash taking the next byte literally.
use vstd::prelude::*;

use crate::strutil::{
    push_char, sorted_unique, string_of, strictly_sorted, views,
};
use vstd::string::StringSliceAdditionalSpecFns;

verus! {

// ---------------------------------------------------------------------------
// Joining continued lines
/// Where a backslash at `i` ends a continued line: after blanks, an optional
/// carriage return and a line feed.  `None` when it does not.
pub open spec fn continuation_end(b: Seq<u8>, i: int) -> Option<int> {
    let j = skip_blanks(b, i + 1);
    let j2 = if j < b.len() && b[j] == 13u8 {
        j + 1
    } else {
        j
    };
    if j2 < b.len() && b[j2] == 10u8 {
        Some(j2 + 1)
    } else {
        None
    }
}

pub open spec fn skip_blanks(b: Seq<u8>, j: int) -> int
    decreases b.len() - j,
{
    if j < 0 || j >= b.len() || !(b[j] == 32u8 || b[j] == 9u8) {
        j
    } else {
        skip_blanks(b, j + 1)
    }
}

pub proof fn lemma_skip_blanks(b: Seq<u8>, j: int)
    requires
        0 <= j <= b.len(),
    ensures
        j <= skip_blanks(b, j) <= b.len(),
    decreases b.len() - j,
{
    if j < b.len() && (b[j] == 32u8 || b[j] == 9u8) {
        lemma_skip_blanks(b, j + 1);
    }
}

/// The text from byte `i` on with continued lines joined by a space.
pub open spec fn unfold_from(b: Seq<u8>, i: int) -> Seq<char>
    decreases b.len() - i,
{
    if i < 0 || i >= b.len() {
        seq![]
    } else if b[i] == 92u8 && continuation_end(b, i) is Some {
        let j = continuation_end(b, i)->0;
        if j <= i {
            seq![]
        } else {
            seq![' '] + unfold_from(b, j)
        }
    } else {
        seq![b[i] as char] + unfold_from(b, i + 1)
    }
}

fn unfold(b: &[u8]) -> (r: Vec<char>)
    ensures
        r@ == unfold_from(b@, 0),
        latin1(r@),
{
    let mut out: Vec<char> = Vec::new();
    let mut i: usize = 0;
    while i < b.len()
        invariant
            i <= b@.len(),
            out@ + unfold_from(b@, i as int) == unfold_from(b@, 0),
            latin1(out@),
        decreases b@.len() - i,
    {
        if b[i] == 92u8 {
            let mut j = i + 1;
            proof {
                lemma_skip_blanks(b@, i + 1);
            }
            while j < b.len() && (b[j] == 32u8 || b[j] == 9u8)
                invariant
                    i + 1 <= j <= b@.len(),
                    skip_blanks(b@, j as int) == skip_blanks(b@, i + 1),
                decreases b@.len() - j,
            {
                j = j + 1;
            }
            if j < b.len() && b[j] == 13u8 {
                j = j + 1;
            }
            if j < b.len() && b[j] == 10u8 {
                assert(continuation_end(b@, i as int) == Some(j + 1));
                let ghost o = out@;
                out.push(' ');
                assert(out@ + unfold_from(b@, j + 1) == o + unfold_from(b@, i as int));
                i = j + 1;
                continue;
            }
        }
        let ghost o = out@;
        out.push(b[i] as char);
        assert(out@ + unfold_from(b@, i + 1) == o + unfold_from(b@, i as int));
        i = i + 1;
    }
    assert(out@ + unfold_from(b@, i as int) == out@);
    out
}

// ---------------------------------------------------------------------------
// Lines
/// The pieces of a text between line feeds (the last one possibly empty).
pub open spec fn split_lines(cs: Seq<char>) -> Seq<Seq<char>>
    decreases cs.len(),
{
    if cs.len() == 0 {
        seq![seq![]]
    } else {
        let init = split_lines(cs.drop_last());
        if cs.last() == '\n' {
            init.push(seq![])
        } else {
            init.update(init.len() - 1, init.last().push(cs.last()))
        }
    }
}

pub proof fn lemma_split_lines_len(cs: Seq<char>)
    ensures
        split_lines(cs).len() >= 1,
    decreases cs.len(),
{
    if cs.len() > 0 {
        lemma_split_lines_len(cs.drop_last());
    }
}

/// White space that `str::trim` removes, among the characters `U+0000` to
/// `U+00FF` that the text holds.
pub open spec fn is_ws(c: char) -> bool {
    c == ' ' || c == '\t' || c == '\n' || c == '\r' || c == '\x0B' || c == '\x0C' || c == '\u{85}'
        || c == '\u{A0}'
}

pub open spec fn trim_start(s: Seq<char>) -> Seq<char>
    decreases s.len(),
{
    if s.len() > 0 && is_ws(s[0]) {
        trim_start(s.drop_first())
    } else {
        s
    }
}

pub open spec fn trim_end(s: Seq<char>) -> Seq<char>
    decreases s.len(),
{
    if s.len() > 0 && is_ws(s.last()) {
        trim_end(s.drop_last())
    } else {
        s
    }
}

pub open spec fn trim(s: Seq<char>) -> Seq<char> {
    trim_end(trim_start(s))
}

/// The index of the first colon not escaped by a backslash.
pub open spec fn colon_from(t: Seq<char>, i: int) -> Option<int>
    decreases t.len() + 1 - i,
{
    if i < 0 || i >= t.len() {
        None
    } else if t[i] == '\\' {
        colon_from(t, i + 2)
    } else if t[i] == ':' {
        Some(i)
    } else {
        colon_from(t, i + 1)
    }
}

/// Every character is below `U+0100`, as those read from bytes are.
pub open spec fn latin1(s: Seq<char>) -> bool {
    forall|i: int| 0 <= i < s.len() ==> 0 <= (#[trigger] s[i] as int) < 256
}

/// The UTF-8 bytes of a character below `U+0100`.
pub open spec fn enc_char(c: char) -> Seq<u8> {
    if (c as int) < 128 {
        seq![c as u8]
    } else {
        seq![(192 + (c as int) / 64) as u8, (128 + (c as int) % 64) as u8]
    }
}

pub open spec fn enc(cs: Seq<char>) -> Seq<u8>
    decreases cs.len(),
{
    if cs.len() == 0 {
        seq![]
    } else {
        enc(cs.drop_last()) + enc_char(cs.last())
    }
}

/// Words of Make syntax in bytes `b[i..]`: blanks separate words, a
/// backslash takes the next byte into the word.  `cur` is the word being
/// read, `acc` the words before it.
pub open spec fn words_from(b: Seq<u8>, i: int, cur: Seq<char>, acc: Seq<Seq<char>>) -> Seq<
    Seq<char>,
>
    decreases b.len() - i,
{
    if i < 0 || i >= b.len() {
        if cur.len() > 0 {
            acc.push(cur)
        } else {
            acc
        }
    } else if b[i] == 32u8 || b[i] == 9u8 {
        words_from(b, i + 1, seq![], if cur.len() > 0 {
            acc.push(cur)
        } else {
            acc
        })
    } else if b[i] == 92u8 && i + 1 < b.len() {
        words_from(b, i + 2, cur.push(b[i + 1] as char), acc)
    } else {
        words_from(b, i + 1, cur.push(b[i] as char), acc)
    }
}

pub open spec fn make_words(t: Seq<char>) -> Seq<Seq<char>> {
    words_from(enc(t), 0, seq![], seq![])
}

/// Backslashes written as slashes.
pub open spec fn norm(p: Seq<char>) -> Seq<char> {
    p.map_values(|c: char| if c == '\\' { '/' } else { c })
}

/// What a rule line gives: the dependencies of rules whose targets name the
/// output, and the dependencies of every rule.
pub struct Collected {
    pub matched: Seq<Seq<char>>,
    pub all: Seq<Seq<char>>,
}

/// The effect of one line on what has been collected.
pub open spec fn collect_line(c: Collected, line: Seq<char>, out_norm: Seq<char>) -> Collected {
    let t = trim(line);
    if t.len() == 0 || t[0] == '#' {
        c
    } else {
        match colon_from(t, 0) {
            None => c,
            Some(k) => {
                let targets = make_words(t.take(k));
                let deps = make_words(t.skip(k + 1));
                let hit = exists|j: int| 0 <= j < targets.len() && norm(#[trigger] targets[j]) == out_norm;
                Collected {
                    matched: if hit {
                        c.matched + deps
                    } else {
                        c.matched
                    },
                    all: c.all + deps,
                }
            },
        }
    }
}

pub open spec fn collect(lines: Seq<Seq<char>>, out_norm: Seq<char>) -> Collected
    decreases lines.len(),
{
    if lines.len() == 0 {
        Collected { matched: seq![], all: seq![] }
    } else {
        collect_line(collect(lines.drop_last(), out_norm), lines.last(), out_norm)
    }
}

/// The dependencies to keep: those of rules for the output, or of every rule
/// when no rule names the output; without empty words and the output itself.
pub open spec fn depfile_deps(text: Seq<u8>, output: Seq<char>) -> Set<Seq<char>> {
    let out_norm = norm(output);
    let c = collect(split_lines(unfold_from(text, 0)), out_norm);
    let src = if c.matched.len() == 0 {
        c.all
    } else {
        c.matched
    };
    Set::new(|d: Seq<char>| src.contains(d) && d.len() > 0 && norm(d) != out_norm)
}

// ---------------------------------------------------------------------------
// Executable parts
fn is_ws_char(c: char) -> (r: bool)
    ensures
        r == is_ws(c),
{
    c == ' ' || c == '\t' || c == '\n' || c == '\r' || c == '\x0B' || c == '\x0C' || c == '\u{85}'
        || c == '\u{A0}'
}

/// The bounds of the trimmed text `t[lo..hi]`.
fn trim_bounds(t: &Vec<char>) -> (r: (usize, usize))
    ensures
        r.0 <= r.1 <= t@.len(),
        t@.subrange(r.0 as int, r.1 as int) == trim(t@),
{
    let mut lo: usize = 0;
    assert(t@.skip(0) =~= t@);
    while lo < t.len() && is_ws_char(t[lo])
        invariant
            lo <= t@.len(),
            trim_start(t@) == trim_start(t@.skip(lo as int)),
        decreases t@.len() - lo,
    {
        assert(t@.skip(lo as int).drop_first() == t@.skip(lo + 1));
        lo = lo + 1;
    }
    assert(trim_start(t@.skip(lo as int)) == t@.skip(lo as int));
    let mut hi: usize = t.len();
    while hi > lo && is_ws_char(t[hi - 1])
        invariant
            lo <= hi <= t@.len(),
            trim(t@) == trim_end(t@.subrange(lo as int, hi as int)),
        decreases hi,
    {
        assert(t@.subrange(lo as int, hi as int).drop_last() == t@.subrange(lo as int, hi - 1));
        hi = hi - 1;
    }
    assert(trim(t@) == t@.subrange(lo as int, hi as int));
    (lo, hi)
}

fn find_colon(t: &Vec<char>, lo: usize, hi: usize) -> (r: Option<usize>)
    requires
        lo <= hi <= t@.len(),
    ensures
        colon_from(t@.subrange(lo as int, hi as int), 0) == match r {
            Some(k) => Some(k - lo),
            None => None::<int>,
        },
        r matches Some(k) ==> lo <= k < hi,
{
    let ghost s = t@.subrange(lo as int, hi as int);
    let mut i = lo;
    while i < hi
        invariant
            lo <= i <= hi <= t@.len(),
            s == t@.subrange(lo as int, hi as int),
            colon_from(s, 0) == colon_from(s, i - lo),
        decreases hi - i,
    {
        if t[i] == '\\' {
            if hi - i < 2 {
                assert(colon_from(s, i + 2 - lo) == None::<int>);
                return None;
            }
            i = i + 2;
            continue;
        }
        if t[i] == ':' {
            return Some(i);
        }
        i = i + 1;
    }
    None
}

fn enc_chars(t: &Vec<char>, lo: usize, hi: usize) -> (r: Vec<u8>)
    requires
        lo <= hi <= t@.len(),
        latin1(t@),
    ensures
        r@ == enc(t@.subrange(lo as int, hi as int)),
{
    let mut out: Vec<u8> = Vec::new();
    let mut i = lo;
    while i < hi
        invariant
            lo <= i <= hi <= t@.len(),
            latin1(t@),
            out@ == enc(t@.subrange(lo as int, i as int)),
        decreases hi - i,
    {
        let c = t[i];
        let x = c as u32;
        let ghost o = out@;
        let ghost sub = t@.subrange(lo as int, i + 1);
        assert(sub.drop_last() == t@.subrange(lo as int, i as int));
        assert(sub.last() == c);
        assert(enc(sub) == o + enc_char(c));
        assert(0 <= (c as int) < 256);
        assert(x == c as u32);
        assert(x as int == c as int);
        if x < 128 {
            out.push(x as u8);
            assert((x as u8) as int == c as int);
            assert((c as u8) as int == c as int);
            assert(out@ =~= o + enc_char(c));
        } else {
            out.push((192 + x / 64) as u8);
            out.push((128 + x % 64) as u8);
            assert(((192 + x / 64) as u8) as int == 192 + (c as int) / 64);
            assert(((128 + x % 64) as u8) as int == 128 + (c as int) % 64);
            assert(out@ =~= o + enc_char(c));
        }
        i = i + 1;
    }
    out
}

fn make_words_exec(b: &Vec<u8>) -> (r: Vec<String>)
    ensures
        views(r@) == words_from(b@, 0, seq![], seq![]),
{
    let mut words: Vec<String> = Vec::new();
    let mut cur: Vec<char> = Vec::new();
    let mut i: usize = 0;
    assert(views(words@) =~= Seq::<Seq<char>>::empty());
    while i < b.len()
        invariant
            i <= b@.len(),
            words_from(b@, i as int, cur@, views(words@)) == words_from(b@, 0, seq![], seq![]),
        decreases b@.len() - i,
    {
        let c = b[i];
        if c == 32u8 || c == 9u8 {
            if cur.len() > 0 {
                let ghost w0 = views(words@);
                let s = string_of(&cur);
                words.push(s);
                assert(views(words@) =~= w0.push(cur@));
                cur = Vec::new();
            } else {
                assert(cur@ =~= Seq::<char>::empty());
            }
            i = i + 1;
        } else if c == 92u8 && i + 1 < b.len() {
            cur.push(b[i + 1] as char);
            i = i + 2;
        } else {
            cur.push(c as char);
            i = i + 1;
        }
    }
    if cur.len() > 0 {
        let ghost w0 = views(words@);
        let s = string_of(&cur);
        words.push(s);
        assert(views(words@) =~= w0.push(cur@));
    }
    words
}

fn norm_exec(p: &Vec<char>) -> (r: Vec<char>)
    ensures
        r@ == norm(p@),
{
    let mut out: Vec<char> = Vec::new();
    let mut i: usize = 0;
    while i < p.len()
        invariant
            i <= p@.len(),
            out@ == norm(p@).take(i as int),
        decreases p@.len() - i,
    {
        if p[i] == '\\' {
            out.push('/');
        } else {
            out.push(p[i]);
        }
        i = i + 1;
        assert(out@ =~= norm(p@).take(i as int));
    }
    assert(norm(p@).take(p@.len() as int) =~= norm(p@));
    out
}

fn chars_eq(a: &Vec<char>, b: &Vec<char>) -> (r: bool)
    ensures
        r == (a@ == b@),
{
    if a.len() != b.len() {
        return false;
    }
    let mut i: usize = 0;
    while i < a.len()
        invariant
            i <= a@.len(),
            a@.len() == b@.len(),
            a@.take(i as int) == b@.take(i as int),
        decreases a@.len() - i,
    {
        if a[i] != b[i] {
            assert(a@[i as int] != b@[i as int]);
            return false;
        }
        assert(a@.take(i + 1) == a@.take(i as int).push(a@[i as int]));
        assert(b@.take(i + 1) == b@.take(i as int).push(b@[i as int]));
        i = i + 1;
    }
    assert(a@.take(a@.len() as int) == a@);
    assert(b@.take(b@.len() as int) == b@);
    true
}

fn string_chars(s: &String) -> (r: Vec<char>)
    ensures
        r@ == s@,
{
    crate::strutil::chars_of(s.as_str())
}

/// Handles one line, adding to the dependencies collected so far.
fn collect_line_exec(
    line: &Vec<char>,
    out_norm: &Vec<char>,
    matched: &mut Vec<String>,
    all: &mut Vec<String>,
)
    requires
        latin1(line@),
    ensures
        ({
            let c = collect_line(
                Collected { matched: views(old(matched)@), all: views(old(all)@) },
                line@,
                out_norm@,
            );
            &&& views(final(matched)@) == c.matched
            &&& views(final(all)@) == c.all
        }),
{
    let (lo, hi) = trim_bounds(line);
    let ghost t = line@.subrange(lo as int, hi as int);
    if lo == hi || line[lo] == '#' {
        return;
    }
    let k = match find_colon(line, lo, hi) {
        None => {
            return;
        },
        Some(k) => k,
    };
    assert(t.take(k - lo) == line@.subrange(lo as int, k as int));
    assert(t.skip(k - lo + 1) == line@.subrange(k + 1, hi as int));
    let tb = enc_chars(line, lo, k);
    let db = enc_chars(line, k + 1, hi);
    let targets = make_words_exec(&tb);
    let deps = make_words_exec(&db);
    let ghost tv = views(targets@);
    let ghost dv = views(deps@);
    let mut hit = false;
    let mut j: usize = 0;
    while j < targets.len()
        invariant
            j <= targets@.len(),
            tv == views(targets@),
            hit == exists|m: int| 0 <= m < j && norm(#[trigger] tv[m]) == out_norm@,
        decreases targets@.len() - j,
    {
        let tc = string_chars(&targets[j]);
        let tn = norm_exec(&tc);
        assert(tv[j as int] == tc@);
        let ghost before = hit;
        if chars_eq(&tn, out_norm) {
            hit = true;
        }
        assert(hit == (before || norm(tv[j as int]) == out_norm@));
        assert((exists|m: int| 0 <= m < j + 1 && norm(#[trigger] tv[m]) == out_norm@) == (before
            || norm(tv[j as int]) == out_norm@)) by {
            if norm(tv[j as int]) == out_norm@ {
                assert(0 <= j < j + 1 && norm(tv[j as int]) == out_norm@);
            }
        }
        j = j + 1;
    }
    let mut i: usize = 0;
    let ghost m0 = views(matched@);
    let ghost a0 = views(all@);
    while i < deps.len()
        invariant
            i <= deps@.len(),
            dv == views(deps@),
            views(all@) == a0 + dv.take(i as int),
            views(matched@) == if hit {
                m0 + dv.take(i as int)
            } else {
                m0
            },
        decreases deps@.len() - i,
    {
        let ghost a1 = views(all@);
        let ghost m1 = views(matched@);
        all.push(deps[i].clone());
        assert(views(all@) =~= a1.push(dv[i as int]));
        assert(dv.take(i + 1) =~= dv.take(i as int).push(dv[i as int]));
        if hit {
            matched.push(deps[i].clone());
            assert(views(matched@) =~= m1.push(dv[i as int]));
        }
        i = i + 1;
    }
    assert(dv.take(deps@.len() as int) =~= dv);
}

/// The dependencies of `output` in a depfile, sorted, each once.
pub fn parse_depfile(text: &str, output: &str) -> (r: Vec<String>)
    ensures
        strictly_sorted(views(r@)),
        views(r@).to_set() == depfile_deps(text.spec_bytes(), output@),
{
    let cs = unfold(text.as_bytes());
    let ghost lines = split_lines(cs@);
    let oc = crate::strutil::chars_of(output);
    let out_norm = norm_exec(&oc);
    let mut matched: Vec<String> = Vec::new();
    let mut all: Vec<String> = Vec::new();
    let mut cur: Vec<char> = Vec::new();
    let mut i: usize = 0;
    assert(views(matched@) =~= Seq::<Seq<char>>::empty());
    assert(views(all@) =~= Seq::<Seq<char>>::empty());
    assert(split_lines(cs@.take(0)) =~= seq![Seq::<char>::empty()]);
    while i < cs.len()
        invariant
            i <= cs@.len(),
            latin1(cs@),
            latin1(cur@),
            out_norm@ == norm(output@),
            split_lines(cs@.take(i as int)).len() >= 1,
            cur@ == split_lines(cs@.take(i as int)).last(),
            collect(split_lines(cs@.take(i as int)).drop_last(), out_norm@) == (Collected {
                matched: views(matched@),
                all: views(all@),
            }),
        decreases cs@.len() - i,
    {
        let ghost pre = split_lines(cs@.take(i as int));
        assert(cs@.take(i + 1).drop_last() == cs@.take(i as int));
        if cs[i] == '\n' {
            collect_line_exec(&cur, &out_norm, &mut matched, &mut all);
            assert(split_lines(cs@.take(i + 1)) == pre.push(seq![]));
            assert(pre.push(seq![]).drop_last() == pre);
            assert(pre == pre.drop_last().push(pre.last()));
            cur = Vec::new();
        } else {
            cur.push(cs[i]);
            assert(split_lines(cs@.take(i + 1)) == pre.update(pre.len() - 1, pre.last().push(cs@[i as int])));
            assert(split_lines(cs@.take(i + 1)).drop_last() =~= pre.drop_last());
        }
        i = i + 1;
    }
    collect_line_exec(&cur, &out_norm, &mut matched, &mut all);
    proof {
        let sl = split_lines(cs@.take(i as int));
        assert(cs@.take(i as int) == cs@);
        assert(sl == sl.drop_last().push(sl.last()));
    }
    let src = if matched.len() == 0 {
        all
    } else {
        matched
    };
    let ghost sv = views(src@);
    let mut kept: Vec<String> = Vec::new();
    let mut k: usize = 0;
    assert(views(kept@).to_set() =~= Set::new(
        |d: Seq<char>| sv.take(0).contains(d) && d.len() > 0 && norm(d) != out_norm@,
    ));
    while k < src.len()
        invariant
            k <= src@.len(),
            sv == views(src@),
            out_norm@ == norm(output@),
            views(kept@).to_set() == Set::new(
                |d: Seq<char>| sv.take(k as int).contains(d) && d.len() > 0 && norm(d) != out_norm@,
            ),
        decreases src@.len() - k,
    {
        let dc = string_chars(&src[k]);
        let dn = norm_exec(&dc);
        let keep = dc.len() > 0 && !chars_eq(&dn, &out_norm);
        assert(sv[k as int] == dc@);
        let ghost kv = views(kept@);
        if keep {
            kept.push(src[k].clone());
            assert(views(kept@) =~= kv.push(sv[k as int]));
            proof {
                kv.lemma_push_to_set_commute(sv[k as int]);
            }
        }
        assert(sv.take(k + 1) =~= sv.take(k as int).push(sv[k as int]));
        assert forall|d: Seq<char>| sv.take(k + 1).contains(d) <==> (sv.take(k as int).contains(d) || d
            == sv[k as int]) by {
            vstd::seq_lib::lemma_seq_contains_after_push(sv.take(k as int), sv[k as int], d);
        }
        assert forall|d: Seq<char>| #[trigger] views(kept@).to_set().contains(d) <==> (sv.take(
            k + 1,
        ).contains(d) && d.len() > 0 && norm(d) != out_norm@) by {
            if keep {
                vstd::seq_lib::lemma_seq_contains_after_push(kv, sv[k as int], d);
            }
        }
        assert(views(kept@).to_set() =~= Set::new(
            |d: Seq<char>| sv.take(k + 1).contains(d) && d.len() > 0 && norm(d) != out_norm@,
        ));
        k = k + 1;
    }
    assert(sv.take(src@.len() as int) =~= sv);
    let r = sorted_unique(kept);
    assert(views(r@).to_set() =~= depfile_deps(text.spec_bytes(), output@));
    r
}

} // verus!
