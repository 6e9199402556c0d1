//! The build log: for every output, the hash of the command that last
//! built it.
use vstd::prelude::*;

use rustc_hash::FxHashMap;

use crate::exec::{hex_char, hex_digit};
use crate::files::joined;
use crate::fxmap::{hash_entries, hash_map_get, hash_map_insert, hash_map_new, hash_map_pairs};
use crate::strutil::{push_char, push_str, sorted_unique, strictly_sorted, views};

verus! {

/// Command hashes by output path, and the file they are kept in.
pub struct BuildLog {
    pub entries: FxHashMap<String, u64>,
    pub path: String,
}

impl BuildLog {
    /// The recorded hashes.
    pub open spec fn hashes(&self) -> Map<Seq<char>, u64> {
        hash_entries(self.entries)
    }

    /// A log with no entries, kept in `path`.
    pub fn empty(path: String) -> (r: Self)
        ensures
            r.hashes().dom().is_empty(),
            r.path@ == path@,
    {
        BuildLog { entries: hash_map_new(), path }
    }

    /// The hash recorded for `path`.
    pub fn get(&self, path: &str) -> (r: Option<u64>)
        ensures
            r is Some <==> self.hashes().contains_key(path@),
            r matches Some(h) ==> h == self.hashes()[path@],
    {
        hash_map_get(&self.entries, path)
    }

    /// Records `hash` for `path`.
    pub fn set(&mut self, path: &str, hash: u64)
        ensures
            final(self).hashes() == old(self).hashes().insert(path@, hash),
            final(self).path == old(self).path,
    {
        hash_map_insert(&mut self.entries, path.to_owned(), hash);
    }
}


// ---------------------------------------------------------------------------
// The text of the log
/// Where the line that starts at `k` ends: the next line feed, or the end.
pub open spec fn line_end(cs: Seq<char>, k: int) -> int
    decreases cs.len() - k,
{
    if k < 0 || k >= cs.len() || cs[k] == '\n' {
        k
    } else {
        line_end(cs, k + 1)
    }
}

pub proof fn lemma_line_end(cs: Seq<char>, k: int)
    requires
        0 <= k <= cs.len(),
    ensures
        k <= line_end(cs, k) <= cs.len(),
        forall|j: int| k <= j < line_end(cs, k) ==> cs[j] != '\n',
        line_end(cs, k) < cs.len() ==> cs[line_end(cs, k)] == '\n',
    decreases cs.len() - k,
{
    if k < cs.len() && cs[k] != '\n' {
        lemma_line_end(cs, k + 1);
    }
}

/// The line that starts at `k`, as `str::lines` gives it: without its line
/// feed, and without a carriage return before that line feed.
pub open spec fn log_line(cs: Seq<char>, k: int) -> Seq<char> {
    let e = line_end(cs, k);
    let raw = cs.subrange(k, e);
    if e < cs.len() && raw.len() > 0 && raw.last() == '\r' {
        raw.drop_last()
    } else {
        raw
    }
}

pub open spec fn is_hex(c: char) -> bool {
    ('0' <= c && c <= '9') || ('a' <= c && c <= 'f') || ('A' <= c && c <= 'F')
}

pub open spec fn hex_val(c: char) -> nat {
    if '0' <= c && c <= '9' {
        (c as int - '0' as int) as nat
    } else if 'a' <= c && c <= 'f' {
        (c as int - 'a' as int + 10) as nat
    } else {
        (c as int - 'A' as int + 10) as nat
    }
}

/// The number that hex digits stand for.
pub open spec fn hex_value(s: Seq<char>) -> nat
    decreases s.len(),
{
    if s.len() == 0 {
        0
    } else {
        hex_value(s.drop_last()) * 16 + hex_val(s.last())
    }
}

/// The digits of a number, without a leading `+`.
pub open spec fn unsigned_digits(s: Seq<char>) -> Seq<char> {
    if s.len() > 1 && s[0] == '+' {
        s.skip(1)
    } else {
        s
    }
}

pub open spec fn all_hex(d: Seq<char>) -> bool {
    forall|i: int| 0 <= i < d.len() ==> is_hex(#[trigger] d[i])
}

/// `u64::from_str_radix(s, 16)`: an optional `+`, then at least one hex
/// digit, for a value that fits.
pub open spec fn parse_hex(s: Seq<char>) -> Option<u64> {
    let digits = unsigned_digits(s);
    if digits.len() == 0 || !all_hex(digits) || hex_value(digits) > u64::MAX {
        None
    } else {
        Some(hex_value(digits) as u64)
    }
}

/// Where the first tab of a line is.
pub open spec fn tab_from(line: Seq<char>, k: int) -> Option<int>
    decreases line.len() - k,
{
    if k < 0 || k >= line.len() {
        None
    } else if line[k] == '\t' {
        Some(k)
    } else {
        tab_from(line, k + 1)
    }
}

/// A line `<hash>\t<path>` records the hash for the path; empty lines,
/// comments and lines without a valid hash change nothing.
pub open spec fn apply_line(m: Map<Seq<char>, u64>, line: Seq<char>) -> Map<Seq<char>, u64> {
    if line.len() == 0 || line[0] == '#' {
        m
    } else {
        match tab_from(line, 0) {
            None => m,
            Some(t) => match parse_hex(line.take(t)) {
                None => m,
                Some(h) => m.insert(line.skip(t + 1), h),
            },
        }
    }
}

/// The entries that the lines from `k` on add to `m`.
pub open spec fn log_from(cs: Seq<char>, k: int, m: Map<Seq<char>, u64>) -> Map<Seq<char>, u64>
    decreases cs.len() + 1 - k,
{
    if k < 0 || k >= cs.len() {
        m
    } else {
        let e = line_end(cs, k);
        proof {
            lemma_line_end(cs, k);
        }
        log_from(cs, e + 1, apply_line(m, log_line(cs, k)))
    }
}

/// The entries of a log text.
pub open spec fn parsed_log(cs: Seq<char>) -> Map<Seq<char>, u64> {
    log_from(cs, 0, Map::empty())
}

/// The `n` lowest hex digits of `v`, most significant first.
pub open spec fn hex_digits(v: nat, n: nat) -> Seq<char>
    decreases n,
{
    if n == 0 {
        seq![]
    } else {
        hex_digits(v / 16, (n - 1) as nat).push(hex_digit(v % 16))
    }
}

/// A hash as sixteen lower-case hex digits (`{:016x}`).
pub open spec fn hex16(h: u64) -> Seq<char> {
    hex_digits(h as nat, 16)
}

/// Each line followed by a line feed.
pub open spec fn terminated(lines: Seq<Seq<char>>) -> Seq<char>
    decreases lines.len(),
{
    if lines.len() == 0 {
        seq![]
    } else {
        lines[0] + seq!['\n'] + terminated(lines.drop_first())
    }
}

pub open spec fn entry_line(p: Seq<char>, h: u64) -> Seq<char> {
    hex16(h) + seq!['\t'] + p
}

/// The lines of the entries, in the order of `ks`.
pub open spec fn entry_lines(ks: Seq<Seq<char>>, m: Map<Seq<char>, u64>) -> Seq<Seq<char>> {
    ks.map_values(|k: Seq<char>| entry_line(k, m[k]))
}

/// The saved log: a header, then one line per entry sorted by path.
pub open spec fn log_text(ks: Seq<Seq<char>>, m: Map<Seq<char>, u64>) -> Seq<char> {
    terminated(seq!["# kage log v1"@] + entry_lines(ks, m))
}

/// The path of the log in a working directory.
pub open spec fn log_path_of(workdir: Seq<char>) -> Seq<char> {
    joined(workdir, ".mold_log"@)
}


fn is_hex_char(c: char) -> (r: bool)
    ensures
        r == is_hex(c),
{
    ('0' <= c && c <= '9') || ('a' <= c && c <= 'f') || ('A' <= c && c <= 'F')
}

fn hex_val_of(c: char) -> (r: u64)
    requires
        is_hex(c),
    ensures
        r == hex_val(c),
        r < 16,
{
    let x = c as u32;
    if '0' <= c && c <= '9' {
        assert(x as int == c as int);
        (x - 48) as u64
    } else if 'a' <= c && c <= 'f' {
        assert(x as int == c as int);
        (x - 87) as u64
    } else {
        assert(x as int == c as int);
        (x - 55) as u64
    }
}

pub proof fn lemma_hex_value_take(s: Seq<char>, j: int)
    requires
        0 <= j <= s.len(),
    ensures
        hex_value(s.take(j)) <= hex_value(s),
    decreases s.len(),
{
    if j < s.len() {
        assert(s.take(j) =~= s.drop_last().take(j));
        lemma_hex_value_take(s.drop_last(), j);
    } else {
        assert(s.take(j) =~= s);
    }
}

/// `u64::from_str_radix` with radix 16 on `cs[lo..hi]`.
fn parse_hex_range(cs: &Vec<char>, lo: usize, hi: usize) -> (r: Option<u64>)
    requires
        lo <= hi <= cs@.len(),
    ensures
        r == parse_hex(cs@.subrange(lo as int, hi as int)),
{
    let ghost s = cs@.subrange(lo as int, hi as int);
    let mut start = lo;
    if hi - lo > 1 && cs[lo] == '+' {
        start = lo + 1;
    }
    let ghost digits = cs@.subrange(start as int, hi as int);
    assert(digits == unsigned_digits(s));
    if start == hi {
        assert(digits.len() == 0);
        return None;
    }
    let mut v: u64 = 0;
    let mut i = start;
    while i < hi
        invariant
            lo <= start <= i <= hi <= cs@.len(),
            digits == cs@.subrange(start as int, hi as int),
            digits == unsigned_digits(s),
            s == cs@.subrange(lo as int, hi as int),
            forall|j: int| 0 <= j < i - start ==> is_hex(#[trigger] digits[j]),
            v as nat == hex_value(digits.take(i - start)),
        decreases hi - i,
    {
        let c = cs[i];
        if !is_hex_char(c) {
            assert(digits[i - start] == c);
            assert(!is_hex(digits[i - start]));
            return None;
        }
        let d = hex_val_of(c);
        assert(digits.take(i - start + 1).drop_last() =~= digits.take(i - start));
        assert(digits.take(i - start + 1).last() == c);
        match v.checked_mul(16) {
            None => {
                proof {
                    lemma_hex_value_take(digits, i - start + 1);
                }
                return None;
            },
            Some(x) => match x.checked_add(d) {
                None => {
                    proof {
                        lemma_hex_value_take(digits, i - start + 1);
                    }
                    return None;
                },
                Some(y) => {
                    v = y;
                },
            },
        }
        i = i + 1;
    }
    assert(digits.take(hi - start) =~= digits);
    Some(v)
}

impl BuildLog {
    /// Records what one line of the log says, if anything.
    fn apply_line_range(&mut self, cs: &Vec<char>, lo: usize, hi: usize)
        requires
            lo <= hi <= cs@.len(),
        ensures
            final(self).hashes() == apply_line(old(self).hashes(), cs@.subrange(lo as int, hi as int)),
            final(self).path == old(self).path,
    {
        let ghost line = cs@.subrange(lo as int, hi as int);
        if hi == lo || cs[lo] == '#' {
            return;
        }
        let mut t = lo;
        while t < hi && cs[t] != '\t'
            invariant
                lo <= t <= hi <= cs@.len(),
                line == cs@.subrange(lo as int, hi as int),
                tab_from(line, 0) == tab_from(line, t - lo),
            decreases hi - t,
        {
            t = t + 1;
        }
        if t == hi {
            return;
        }
        assert(line.take(t - lo) =~= cs@.subrange(lo as int, t as int));
        match parse_hex_range(cs, lo, t) {
            None => {},
            Some(h) => {
                let p = crate::strutil::string_of_range(cs, t + 1, hi);
                assert(line.skip(t - lo + 1) =~= cs@.subrange(t + 1, hi as int));
                self.set(p.as_str(), h);
            },
        }
    }

    /// The log that a text holds, kept in `path`.
    pub fn parse(text: &str, path: String) -> (r: Self)
        ensures
            r.hashes() == parsed_log(text@),
            r.path@ == path@,
    {
        let cs = crate::strutil::chars_of(text);
        let mut log = BuildLog::empty(path);
        assert(log.hashes() =~= Map::<Seq<char>, u64>::empty());
        let mut k: usize = 0;
        while k < cs.len()
            invariant
                k <= cs@.len(),
                cs@ == text@,
                log.path@ == path@,
                parsed_log(cs@) == log_from(cs@, k as int, log.hashes()),
            decreases cs@.len() - k,
        {
            let mut e = k;
            proof {
                lemma_line_end(cs@, k as int);
            }
            while e < cs.len() && cs[e] != '\n'
                invariant
                    k <= e <= cs@.len(),
                    line_end(cs@, k as int) == line_end(cs@, e as int),
                decreases cs@.len() - e,
            {
                e = e + 1;
            }
            let mut hi = e;
            if e < cs.len() && hi > k && cs[hi - 1] == '\r' {
                hi = hi - 1;
            }
            assert(cs@.subrange(k as int, hi as int) == log_line(cs@, k as int)) by {
                if hi < e {
                    assert(cs@.subrange(k as int, hi as int) =~= cs@.subrange(k as int, e as int).drop_last());
                }
            }
            let ghost before = log.hashes();
            log.apply_line_range(&cs, k, hi);
            proof {
                assert(line_end(cs@, e as int) == e as int);
                assert(log_from(cs@, k as int, before) == log_from(cs@, e + 1, log.hashes()));
                if e == cs.len() {
                    assert(log_from(cs@, e + 1, log.hashes()) == log_from(cs@, e as int, log.hashes()));
                }
            }
            if e == cs.len() {
                k = e;
            } else {
                k = e + 1;
            }
        }
        log
    }

    /// The path of the log in `workdir`.
    pub fn log_path(workdir: &str) -> (r: String)
        ensures
            r@ == log_path_of(workdir@),
    {
        crate::files::join_path(workdir, ".mold_log")
    }
}


pub proof fn lemma_terminated_push(lines: Seq<Seq<char>>, x: Seq<char>)
    ensures
        terminated(lines.push(x)) == terminated(lines) + x + seq!['\n'],
    decreases lines.len(),
{
    if lines.len() == 0 {
        assert(lines.push(x).drop_first() =~= Seq::<Seq<char>>::empty());
        assert(terminated(lines.push(x).drop_first()) =~= Seq::<char>::empty());
        assert(terminated(lines) =~= Seq::<char>::empty());
        assert(lines.push(x)[0] == x);
        assert(terminated(lines.push(x)) =~= terminated(lines) + x + seq!['\n']);
    } else {
        assert(lines.push(x).drop_first() =~= lines.drop_first().push(x));
        lemma_terminated_push(lines.drop_first(), x);
        assert(terminated(lines.push(x)) =~= terminated(lines) + x + seq!['\n']);
    }
}

/// The `n` lowest hex digits of `v`.
fn hex_digits_of(v: u64, n: u32) -> (r: Vec<char>)
    ensures
        r@ == hex_digits(v as nat, n as nat),
    decreases n,
{
    if n == 0 {
        Vec::new()
    } else {
        let mut r = hex_digits_of(v / 16, n - 1);
        r.push(hex_char((v % 16) as u32));
        r
    }
}

/// The keys of the log, sorted.
fn sorted_paths(entries: &FxHashMap<String, u64>) -> (r: Vec<String>)
    ensures
        strictly_sorted(views(r@)),
        views(r@).to_set() == hash_entries(*entries).dom(),
{
    let pairs = hash_map_pairs(entries);
    let mut keys: Vec<String> = Vec::new();
    let mut i: usize = 0;
    while i < pairs.len()
        invariant
            i <= pairs@.len(),
            keys@.len() == i,
            forall|j: int| 0 <= j < i ==> (#[trigger] keys@[j])@ == pairs@[j].0@,
        decreases pairs@.len() - i,
    {
        keys.push(pairs[i].0.clone());
        i = i + 1;
    }
    let ghost m = hash_entries(*entries);
    assert(views(keys@).to_set() =~= m.dom()) by {
        assert forall|k: Seq<char>| views(keys@).to_set().contains(k) implies m.dom().contains(k) by {
            let j = choose|j: int| 0 <= j < views(keys@).len() && views(keys@)[j] == k;
            assert(keys@[j]@ == pairs@[j].0@);
        }
        assert forall|k: Seq<char>| m.dom().contains(k) implies views(keys@).to_set().contains(k) by {
            assert(m.contains_key(k));
            let j = choose|j: int| 0 <= j < pairs@.len() && (#[trigger] pairs@[j]).0@ == k;
            assert(keys@[j]@ == pairs@[j].0@);
            assert(views(keys@)[j] == k);
        }
    }
    sorted_unique(keys)
}

impl BuildLog {
    /// The text that is saved: a header line, then `<hash>\t<path>` for
    /// each entry in path order, the hash as sixteen lower-case hex digits,
    /// every line ended by a line feed.
    pub fn render(&self) -> (r: String)
        ensures
            exists|ks: Seq<Seq<char>>|
                #![trigger log_text(ks, self.hashes())]
                strictly_sorted(ks) && ks.to_set() == self.hashes().dom() && r@ == log_text(
                    ks,
                    self.hashes(),
                ),
    {
        let ks = sorted_paths(&self.entries);
        let ghost kv = views(ks@);
        let ghost m = self.hashes();
        let mut out = String::new();
        push_str(&mut out, "# kage log v1");
        push_char(&mut out, '\n');
        proof {
            let hdr = seq!["# kage log v1"@];
            assert(hdr.drop_first() =~= Seq::<Seq<char>>::empty());
            assert(terminated(hdr.drop_first()) =~= Seq::<char>::empty());
            assert(out@ =~= terminated(hdr));
            assert(hdr + entry_lines(kv.take(0), m) =~= hdr);
        }
        let mut i: usize = 0;
        while i < ks.len()
            invariant
                i <= ks@.len(),
                kv == views(ks@),
                m == self.hashes(),
                kv.to_set() == m.dom(),
                out@ == terminated(seq!["# kage log v1"@] + entry_lines(kv.take(i as int), m)),
            decreases ks@.len() - i,
        {
            let k = &ks[i];
            assert(kv[i as int] == k@);
            assert(m.dom().contains(k@)) by {
                assert(kv.to_set().contains(kv[i as int]));
            }
            match self.get(k.as_str()) {
                None => {
                    proof {
                        assert(false);
                    }
                },
                Some(h) => {
                    let ghost before = out@;
                    let digits = hex_digits_of(h, 16);
                    let mut j: usize = 0;
                    while j < digits.len()
                        invariant
                            j <= digits@.len(),
                            out@ == before + digits@.take(j as int),
                        decreases digits@.len() - j,
                    {
                        push_char(&mut out, digits[j]);
                        assert(digits@.take(j + 1) == digits@.take(j as int).push(digits@[j as int]));
                        j = j + 1;
                    }
                    push_char(&mut out, '\t');
                    push_str(&mut out, k.as_str());
                    push_char(&mut out, '\n');
                    proof {
                        let hdr = seq!["# kage log v1"@];
                        assert(digits@.take(digits@.len() as int) == digits@);
                        let line = entry_line(k@, h);
                        assert(line == entry_line(kv[i as int], m[kv[i as int]]));
                        assert(entry_lines(kv.take(i + 1), m) =~= entry_lines(kv.take(i as int), m).push(line));
                        assert(hdr + entry_lines(kv.take(i + 1), m) =~= (hdr + entry_lines(kv.take(i as int), m)).push(line));
                        lemma_terminated_push(hdr + entry_lines(kv.take(i as int), m), line);
                        assert(out@ =~= before + line + seq!['\n']);
                    }
                },
            }
            i = i + 1;
        }
        assert(kv.take(ks@.len() as int) == kv);
        assert(strictly_sorted(kv) && kv.to_set() == m.dom() && out@ == log_text(kv, m));
        out
    }
}


// ---------------------------------------------------------------------------
// Reading back what was saved
/// The map after the lines of `ls`, applied in order.
pub open spec fn apply_lines(m: Map<Seq<char>, u64>, ls: Seq<Seq<char>>) -> Map<Seq<char>, u64>
    decreases ls.len(),
{
    if ls.len() == 0 {
        m
    } else {
        apply_lines(apply_line(m, ls[0]), ls.drop_first())
    }
}

/// A line that `str::lines` gives back unchanged once it is ended by a line
/// feed.
pub open spec fn plain_line(l: Seq<char>) -> bool {
    !l.contains('\n') && !(l.len() > 0 && l.last() == '\r')
}

pub open spec fn pow16(n: nat) -> nat
    decreases n,
{
    if n == 0 {
        1
    } else {
        16 * pow16((n - 1) as nat)
    }
}

pub proof fn lemma_hex_digit_value(d: nat)
    requires
        d < 16,
    ensures
        is_hex(hex_digit(d)),
        hex_val(hex_digit(d)) == d,
        hex_digit(d) != '+',
        hex_digit(d) != '#',
        hex_digit(d) != '\t',
{
}

proof fn lemma_hex_digits(v: nat, n: nat)
    requires
        v < pow16(n),
    ensures
        hex_digits(v, n).len() == n,
        all_hex(hex_digits(v, n)),
        forall|i: int| 0 <= i < n ==> (#[trigger] hex_digits(v, n)[i]) != '\t' && hex_digits(v, n)[i] != '+'
            && hex_digits(v, n)[i] != '#',
        hex_value(hex_digits(v, n)) == v,
    decreases n,
{
    if n > 0 {
        let p = pow16((n - 1) as nat);
        assert(v / 16 < p) by (nonlinear_arith)
            requires
                v < 16 * p,
        ;
        lemma_hex_digits(v / 16, (n - 1) as nat);
        lemma_hex_digit_value(v % 16);
        let s = hex_digits(v, n);
        assert(s.drop_last() =~= hex_digits(v / 16, (n - 1) as nat));
    }
}

proof fn lemma_parse_hex16(h: u64)
    ensures
        parse_hex(hex16(h)) == Some(h),
        hex16(h).len() == 16,
        forall|i: int| 0 <= i < 16 ==> (#[trigger] hex16(h)[i]) != '\t' && hex16(h)[i] != '#' && hex16(h)[i] != '\n',
{
    reveal_with_fuel(pow16, 17);
    assert(pow16(16) == 0x1_0000_0000_0000_0000);
    lemma_hex_digits(h as nat, 16);
    assert(unsigned_digits(hex16(h)) == hex16(h));
}

proof fn lemma_tab_from(line: Seq<char>, k: int, t: int)
    requires
        0 <= k <= t < line.len(),
        line[t] == '\t',
        forall|j: int| k <= j < t ==> line[j] != '\t',
    ensures
        tab_from(line, k) == Some(t),
    decreases t - k,
{
    if k < t {
        lemma_tab_from(line, k + 1, t);
    }
}

proof fn lemma_apply_entry_line(m0: Map<Seq<char>, u64>, p: Seq<char>, h: u64)
    ensures
        apply_line(m0, entry_line(p, h)) == m0.insert(p, h),
{
    let line = entry_line(p, h);
    lemma_parse_hex16(h);
    assert(line[0] == hex16(h)[0]);
    lemma_tab_from(line, 0, 16);
    assert(line.take(16) =~= hex16(h));
    assert(line.skip(17) =~= p);
}

proof fn lemma_apply_entry_lines(m0: Map<Seq<char>, u64>, ks: Seq<Seq<char>>, m: Map<Seq<char>, u64>)
    ensures
        apply_lines(m0, entry_lines(ks, m)) == Map::new(
            |k: Seq<char>| m0.contains_key(k) || ks.contains(k),
            |k: Seq<char>| if ks.contains(k) { m[k] } else { m0[k] },
        ),
    decreases ks.len(),
{
    let target = Map::new(
        |k: Seq<char>| m0.contains_key(k) || ks.contains(k),
        |k: Seq<char>| if ks.contains(k) { m[k] } else { m0[k] },
    );
    if ks.len() == 0 {
        assert(apply_lines(m0, entry_lines(ks, m)) =~= target);
    } else {
        let k0 = ks[0];
        let rest = ks.drop_first();
        let m1 = m0.insert(k0, m[k0]);
        lemma_apply_entry_line(m0, k0, m[k0]);
        assert(entry_lines(ks, m).drop_first() =~= entry_lines(rest, m));
        lemma_apply_entry_lines(m1, rest, m);
        assert forall|k: Seq<char>| #[trigger] ks.contains(k) <==> k == k0 || rest.contains(k) by {
            if ks.contains(k) && k != k0 {
                let i = choose|i: int| 0 <= i < ks.len() && ks[i] == k;
                assert(rest[i - 1] == k);
            }
            if rest.contains(k) {
                let i = choose|i: int| 0 <= i < rest.len() && rest[i] == k;
                assert(ks[i + 1] == k);
            }
            if k == k0 {
                assert(ks[0] == k);
            }
        }
        assert(apply_lines(m0, entry_lines(ks, m)) =~= target);
    }
}

proof fn lemma_line_end_at(cs: Seq<char>, k: int, e: int)
    requires
        0 <= k <= e < cs.len(),
        cs[e] == '\n',
        forall|j: int| k <= j < e ==> cs[j] != '\n',
    ensures
        line_end(cs, k) == e,
    decreases e - k,
{
    if k < e {
        lemma_line_end_at(cs, k + 1, e);
    }
}

proof fn lemma_log_from_lines(x: Seq<char>, ls: Seq<Seq<char>>, m0: Map<Seq<char>, u64>)
    requires
        forall|i: int| 0 <= i < ls.len() ==> plain_line(#[trigger] ls[i]),
    ensures
        log_from(x + terminated(ls), x.len() as int, m0) == apply_lines(m0, ls),
    decreases ls.len(),
{
    let cs = x + terminated(ls);
    if ls.len() == 0 {
        assert(cs =~= x);
    } else {
        let l0 = ls[0];
        let x1 = x + l0 + seq!['\n'];
        assert(cs =~= x1 + terminated(ls.drop_first()));
        let k = x.len() as int;
        let e = k + l0.len();
        assert(plain_line(ls[0]));
        assert forall|j: int| k <= j < e implies cs[j] != '\n' by {
            assert(cs[j] == l0[j - k]);
        }
        lemma_line_end_at(cs, k, e);
        assert(cs.subrange(k, e) =~= l0);
        assert(log_line(cs, k) == l0);
        assert forall|i: int| 0 <= i < ls.drop_first().len() implies plain_line(
            #[trigger] ls.drop_first()[i],
        ) by {
            assert(ls.drop_first()[i] == ls[i + 1]);
        }
        lemma_log_from_lines(x1, ls.drop_first(), apply_line(m0, l0));
        assert(x1.len() == e + 1);
    }
}

/// What is saved reads back as the same hashes: parsing the text of a log
/// whose paths hold no line feed and do not end with a carriage return gives
/// its entries again.
pub proof fn lemma_log_round_trip(ks: Seq<Seq<char>>, m: Map<Seq<char>, u64>)
    requires
        ks.to_set() == m.dom(),
        forall|k: Seq<char>| #[trigger] m.contains_key(k) ==> plain_line(k),
    ensures
        parsed_log(log_text(ks, m)) == m,
{
    let hdr: Seq<char> = "# kage log v1"@;
    reveal_strlit("# kage log v1");
    let ls = seq![hdr] + entry_lines(ks, m);
    assert forall|i: int| 0 <= i < ls.len() implies plain_line(#[trigger] ls[i]) by {
        if i == 0 {
            assert(ls[0] == hdr);
            assert(!hdr.contains('\n'));
        } else {
            let k = ks[i - 1];
            assert(ks.to_set().contains(k));
            assert(m.contains_key(k));
            assert(ls[i] == entry_line(k, m[k]));
            lemma_parse_hex16(m[k]);
            let l = entry_line(k, m[k]);
            assert(!l.contains('\n')) by {
                if l.contains('\n') {
                    let j = choose|j: int| 0 <= j < l.len() && l[j] == '\n';
                    if j < 16 {
                        assert(hex16(m[k])[j] == '\n');
                    } else if j > 16 {
                        assert(k[j - 17] == '\n');
                        assert(k.contains('\n'));
                    }
                }
            }
            if k.len() > 0 {
                assert(l.last() == k.last());
            }
        }
    }
    lemma_log_from_lines(Seq::empty(), ls, Map::empty());
    assert(Seq::<char>::empty() + terminated(ls) =~= log_text(ks, m));
    assert(ls.drop_first() =~= entry_lines(ks, m));
    assert(apply_line(Map::empty(), hdr) == Map::<Seq<char>, u64>::empty());
    lemma_apply_entry_lines(Map::empty(), ks, m);
    assert(apply_lines(Map::empty(), entry_lines(ks, m)) =~= m) by {
        assert forall|k: Seq<char>| #[trigger] ks.contains(k) <==> m.contains_key(k) by {
            assert(ks.to_set().contains(k) == ks.contains(k));
        }
    }
}

} // verus!
