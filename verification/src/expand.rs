//! Variable expansion, shell quoting and command hashing.
use vstd::prelude::*;

use rustc_hash::FxHashMap;

use crate::error::{build_error, ErrorView, KageError, Result};
use crate::fxmap::{list_entries, list_map_get, text_entries, text_map_get};
use crate::parse::{BuildFile, DepFormat};
use crate::strutil::{chars_of, push_char, push_str, string_of_range, views};
use vstd::string::StringSliceAdditionalSpecFns;

verus! {

/// The names that an expansion can refer to.
pub struct ExpandCtx<'a> {
    pub file: &'a str,
    pub tools: &'a FxHashMap<String, String>,
    pub flags: &'a FxHashMap<String, Vec<String>>,
    pub vars: &'a FxHashMap<String, String>,
    pub arrays: &'a FxHashMap<String, Vec<String>>,
    pub specials: &'a FxHashMap<String, String>,
}

pub struct CtxView {
    pub tools: Map<Seq<char>, Seq<char>>,
    pub flags: Map<Seq<char>, Seq<Seq<char>>>,
    pub vars: Map<Seq<char>, Seq<char>>,
    pub arrays: Map<Seq<char>, Seq<Seq<char>>>,
    pub specials: Map<Seq<char>, Seq<char>>,
}

impl<'a> View for ExpandCtx<'a> {
    type V = CtxView;

    open spec fn view(&self) -> CtxView {
        CtxView {
            tools: text_entries(*self.tools),
            flags: list_entries(*self.flags),
            vars: text_entries(*self.vars),
            arrays: list_entries(*self.arrays),
            specials: text_entries(*self.specials),
        }
    }
}

// ---------------------------------------------------------------------------
// Shell quoting
/// Characters that need no quoting in a shell word.
pub open spec fn is_shell_safe(c: char) -> bool {
    ('a' <= c && c <= 'z') || ('A' <= c && c <= 'Z') || ('0' <= c && c <= '9') || c == '-' || c
        == '_' || c == '.' || c == '/' || c == '+' || c == '=' || c == ':' || c == '@' || c == '%'
}

/// `s` with every `'` written as `'\''`.
pub open spec fn quote_body(s: Seq<char>) -> Seq<char>
    decreases s.len(),
{
    if s.len() == 0 {
        seq![]
    } else if s.last() == '\'' {
        quote_body(s.drop_last()) + seq!['\'', '\\', '\'', '\'']
    } else {
        quote_body(s.drop_last()).push(s.last())
    }
}

/// The shell word for `s`: `''` for the empty text, `s` itself when every
/// character is safe, else `s` in single quotes.
pub open spec fn shell_quoted(s: Seq<char>) -> Seq<char> {
    if s.len() == 0 {
        seq!['\'', '\'']
    } else if forall|i: int| 0 <= i < s.len() ==> is_shell_safe(#[trigger] s[i]) {
        s
    } else {
        seq!['\''] + quote_body(s) + seq!['\'']
    }
}

/// The parts joined with `sep` between them.
pub open spec fn join_with(parts: Seq<Seq<char>>, sep: Seq<char>) -> Seq<char>
    decreases parts.len(),
{
    if parts.len() == 0 {
        seq![]
    } else if parts.len() == 1 {
        parts[0]
    } else {
        join_with(parts.drop_last(), sep) + sep + parts.last()
    }
}

pub open spec fn quote_all(parts: Seq<Seq<char>>) -> Seq<Seq<char>> {
    parts.map_values(|p: Seq<char>| shell_quoted(p))
}

/// Every part quoted, joined with single spaces.
pub open spec fn shell_joined(parts: Seq<Seq<char>>) -> Seq<char> {
    join_with(quote_all(parts), seq![' '])
}

/// Joining quoted words: no words give nothing, one word gives it quoted,
/// and one more word adds a space and that word quoted, so every word
/// appears, quoted and in order, between single spaces.
pub proof fn lemma_shell_joined_push(ws: Seq<Seq<char>>, x: Seq<char>)
    ensures
        shell_joined(Seq::<Seq<char>>::empty()) == Seq::<char>::empty(),
        shell_joined(seq![x]) == shell_quoted(x),
        ws.len() > 0 ==> shell_joined(ws.push(x)) == shell_joined(ws) + seq![' '] + shell_quoted(x),
{
    assert(quote_all(Seq::<Seq<char>>::empty()) =~= Seq::<Seq<char>>::empty());
    assert(quote_all(seq![x]) =~= seq![shell_quoted(x)]);
    assert(quote_all(ws.push(x)) =~= quote_all(ws).push(shell_quoted(x)));
    assert(quote_all(ws.push(x)).drop_last() =~= quote_all(ws));
}

fn is_safe_char(c: char) -> (r: bool)
    ensures
        r == is_shell_safe(c),
{
    ('a' <= c && c <= 'z') || ('A' <= c && c <= 'Z') || ('0' <= c && c <= '9') || c == '-' || c
        == '_' || c == '.' || c == '/' || c == '+' || c == '=' || c == ':' || c == '@' || c == '%'
}

/// Quotes a word for `/bin/sh`.
pub fn shell_quote(s: &str) -> (r: String)
    ensures
        r@ == shell_quoted(s@),
{
    let cs = chars_of(s);
    if cs.len() == 0 {
        let mut r = String::new();
        push_char(&mut r, '\'');
        push_char(&mut r, '\'');
        assert(r@ == seq!['\'', '\'']);
        return r;
    }
    let mut safe = true;
    let mut i: usize = 0;
    while i < cs.len()
        invariant
            i <= cs@.len(),
            cs@ == s@,
            safe == forall|j: int| 0 <= j < i ==> is_shell_safe(#[trigger] cs@[j]),
        decreases cs@.len() - i,
    {
        if !is_safe_char(cs[i]) {
            safe = false;
        }
        i = i + 1;
    }
    if safe {
        let r = string_of_range(&cs, 0, cs.len());
        assert(cs@.subrange(0, cs@.len() as int) == cs@);
        return r;
    }
    let mut r = String::new();
    push_char(&mut r, '\'');
    let mut k: usize = 0;
    while k < cs.len()
        invariant
            k <= cs@.len(),
            cs@ == s@,
            r@ == seq!['\''] + quote_body(cs@.take(k as int)),
        decreases cs@.len() - k,
    {
        let ghost before = r@;
        let c = cs[k];
        assert(cs@.take(k + 1).drop_last() == cs@.take(k as int));
        if c == '\'' {
            push_char(&mut r, '\'');
            push_char(&mut r, '\\');
            push_char(&mut r, '\'');
            push_char(&mut r, '\'');
            assert(r@ == before + seq!['\'', '\\', '\'', '\'']);
        } else {
            push_char(&mut r, c);
        }
        k = k + 1;
    }
    push_char(&mut r, '\'');
    assert(cs@.take(cs@.len() as int) == cs@);
    r
}

/// Appends `parts[i]` quoted, with `sep` before it unless it is the first.
fn join_quoted_into(out: &mut String, parts: &Vec<String>, sep: char)
    ensures
        final(out)@ == old(out)@ + join_with(quote_all(views(parts@)), seq![sep]),
{
    let ghost ps = views(parts@);
    let mut i: usize = 0;
    let ghost start = out@;
    while i < parts.len()
        invariant
            i <= parts@.len(),
            ps == views(parts@),
            out@ == start + join_with(quote_all(ps.take(i as int)), seq![sep]),
        decreases parts@.len() - i,
    {
        let q = shell_quote(parts[i].as_str());
        let ghost before = out@;
        if i > 0 {
            push_char(out, sep);
        }
        push_str(out, q.as_str());
        assert(quote_all(ps.take(i + 1)).drop_last() =~= quote_all(ps.take(i as int)));
        assert(quote_all(ps.take(i + 1)).last() == shell_quoted(ps[i as int]));
        if i > 0 {
            assert(out@ == before + seq![sep] + q@);
        } else {
            assert(quote_all(ps.take(0)).len() == 0);
            assert(join_with(quote_all(ps.take(0)), seq![sep]) == Seq::<char>::empty());
            assert(join_with(quote_all(ps.take(1)), seq![sep]) == q@);
            assert(out@ == start + q@);
        }
        i = i + 1;
    }
    assert(ps.take(parts@.len() as int) == ps);
}

/// Quotes every part and joins them with single spaces.
pub fn shell_join(parts: &Vec<String>) -> (r: String)
    ensures
        r@ == shell_joined(views(parts@)),
{
    let mut r = String::new();
    join_quoted_into(&mut r, parts, ' ');
    r
}

/// Quotes every part and puts one on each line.
pub fn newline_join(parts: &Vec<String>) -> (r: String)
    ensures
        r@ == join_with(quote_all(views(parts@)), seq!['\n']),
{
    let mut r = String::new();
    join_quoted_into(&mut r, parts, '\n');
    r
}

// ---------------------------------------------------------------------------
// Command hashing
pub const FNV_OFFSET: u64 = 0xcbf29ce484222325u64;

pub const FNV_PRIME: u64 = 0x100000001b3u64;

/// 64-bit FNV-1a over a byte sequence.
pub open spec fn fnv1a(bytes: Seq<u8>) -> u64
    decreases bytes.len(),
{
    if bytes.len() == 0 {
        FNV_OFFSET
    } else {
        vstd::wrapping::u64_specs::wrapping_mul(
            fnv1a(bytes.drop_last()) ^ (bytes.last() as u64),
            FNV_PRIME,
        )
    }
}

/// The hash folds in every byte, however long the input: the empty input
/// hashes to the FNV offset basis, and one more byte `b` takes hash `h` to
/// `(h ^ b) * 0x100000001b3` modulo 2^64.
pub proof fn lemma_fnv1a_fold(s: Seq<u8>, b: u8)
    ensures
        fnv1a(Seq::<u8>::empty()) == 0xcbf29ce484222325u64,
        fnv1a(s.push(b)) as int == ((fnv1a(s) ^ (b as u64)) as int * 0x100000001b3int) % 0x1_0000_0000_0000_0000int,
{
    assert(s.push(b).drop_last() =~= s);
    assert(s.push(b).last() == b);
}

proof fn lemma_times_prime_undone(x: u64)
    ensures
        ((x as int * 0x100000001b3int) % 0x1_0000_0000_0000_0000int) * 0xce965057aff6957bint
            % 0x1_0000_0000_0000_0000int == x as int,
{
    let m: int = 0x1_0000_0000_0000_0000int;
    let p: int = 0x100000001b3int;
    let q: int = 0xce965057aff6957bint;
    let xi = x as int;
    assert(p * q % m == 1) by (nonlinear_arith)
        requires
            m == 0x1_0000_0000_0000_0000int,
            p == 0x100000001b3int,
            q == 0xce965057aff6957bint,
    ;
    vstd::arithmetic::div_mod::lemma_mul_mod_noop_left(xi * p, q, m);
    assert(xi * p * q == xi * (p * q)) by (nonlinear_arith);
    vstd::arithmetic::div_mod::lemma_mul_mod_noop_right(xi, p * q, m);
    assert(xi * 1 == xi);
    vstd::arithmetic::div_mod::lemma_small_mod(x as nat, m as nat);
}

/// Commands that differ only in their last byte hash differently: one more
/// byte changes the hash, whichever bytes came before.
pub proof fn lemma_fnv1a_last_byte(s: Seq<u8>, b1: u8, b2: u8)
    requires
        b1 != b2,
    ensures
        fnv1a(s.push(b1)) != fnv1a(s.push(b2)),
{
    let h = fnv1a(s);
    lemma_fnv1a_fold(s, b1);
    lemma_fnv1a_fold(s, b2);
    let x1 = h ^ (b1 as u64);
    let x2 = h ^ (b2 as u64);
    assert(x1 != x2) by (bit_vector)
        requires
            x1 == h ^ (b1 as u64),
            x2 == h ^ (b2 as u64),
            b1 != b2,
    ;
    lemma_times_prime_undone(x1);
    lemma_times_prime_undone(x2);
}

/// The 64-bit FNV-1a hash of the UTF-8 bytes of a command.
pub fn hash_command(cmd: &str) -> (r: u64)
    ensures
        r == fnv1a(cmd.spec_bytes()),
{
    let bytes = cmd.as_bytes();
    let mut hash: u64 = FNV_OFFSET;
    let mut i: usize = 0;
    while i < bytes.len()
        invariant
            i <= bytes@.len(),
            bytes@ == cmd.spec_bytes(),
            hash == fnv1a(bytes@.take(i as int)),
        decreases bytes@.len() - i,
    {
        assert(bytes@.take(i + 1).drop_last() == bytes@.take(i as int));
        hash = hash ^ (bytes[i] as u64);
        hash = hash.wrapping_mul(FNV_PRIME);
        i = i + 1;
    }
    assert(bytes@.take(bytes@.len() as int) == bytes@);
    hash
}

/// The depfile that an instruction writes by default: `out.d` for GCC
/// depfiles, none otherwise.
pub fn default_depfile(out: &str, depformat: DepFormat) -> (r: Option<String>)
    ensures
        depformat == DepFormat::Gcc ==> (r matches Some(d) && d@ == out@ + seq!['.', 'd']),
        depformat == DepFormat::NoDeps ==> r is None,
{
    match depformat {
        DepFormat::Gcc => {
            let mut d = out.to_owned();
            push_char(&mut d, '.');
            push_char(&mut d, 'd');
            Some(d)
        },
        DepFormat::NoDeps => None,
    }
}

// ---------------------------------------------------------------------------
// Expansion
/// A character of a variable name; the first one may not be a digit.
pub open spec fn ident_char(c: char, first: bool) -> bool {
    if first {
        ('a' <= c && c <= 'z') || ('A' <= c && c <= 'Z') || c == '_'
    } else {
        ('a' <= c && c <= 'z') || ('A' <= c && c <= 'Z') || ('0' <= c && c <= '9') || c == '_'
    }
}

pub fn is_ident_char(c: char, first: bool) -> (r: bool)
    ensures
        r == ident_char(c, first),
{
    if first {
        ('a' <= c && c <= 'z') || ('A' <= c && c <= 'Z') || c == '_'
    } else {
        ('a' <= c && c <= 'z') || ('A' <= c && c <= 'Z') || ('0' <= c && c <= '9') || c == '_'
    }
}

/// The value of the name `name` as shell-safe text: special variables first
/// (already quoted when made), then tools (quoted), flags (quoted and
/// joined), scalar variables (quoted) and arrays (quoted and joined).
pub open spec fn lookup_value(c: CtxView, name: Seq<char>) -> core::result::Result<
    Seq<char>,
    ErrorView,
> {
    if c.specials.contains_key(name) {
        Ok(c.specials[name])
    } else if c.tools.contains_key(name) {
        Ok(shell_quoted(c.tools[name]))
    } else if c.flags.contains_key(name) {
        Ok(shell_joined(c.flags[name]))
    } else if c.vars.contains_key(name) {
        Ok(shell_quoted(c.vars[name]))
    } else if c.arrays.contains_key(name) {
        Ok(shell_joined(c.arrays[name]))
    } else {
        Err(build_error("unknown variable '"@ + name + "'"@))
    }
}

/// End of the run of name characters that starts at `j`.
pub open spec fn ident_end(cs: Seq<char>, j: int) -> int
    decreases cs.len() - j,
{
    if j < 0 || j >= cs.len() || !ident_char(cs[j], false) {
        j
    } else {
        ident_end(cs, j + 1)
    }
}

/// Scans a bracketed name from `j` up to the closing `end`.
pub open spec fn bracket_scan(cs: Seq<char>, start: int, j: int, end: char, open: char) -> core::result::Result<
    int,
    ErrorView,
>
    decreases cs.len() - j,
{
    if j < 0 || j >= cs.len() || cs[j] == end {
        Ok(j)
    } else if !ident_char(cs[j], j == start) {
        Err(build_error("invalid variable name in '$"@ + seq![open] + "...'"@))
    } else {
        bracket_scan(cs, start, j + 1, end, open)
    }
}

/// The variable reference after a `$` at `i - 1`: its name and the index
/// after it.  A character that cannot start a name gives an empty name.
pub open spec fn parse_ref_spec(cs: Seq<char>, i: int) -> core::result::Result<
    (Seq<char>, int),
    ErrorView,
> {
    if i < 0 || i >= cs.len() {
        Err(build_error("dangling '$' in expansion"@))
    } else if cs[i] == '(' {
        bracket_ref(cs, i, ')')
    } else if cs[i] == '{' {
        bracket_ref(cs, i, '}')
    } else if !ident_char(cs[i], true) {
        Ok((seq![], i))
    } else {
        let j = ident_end(cs, i + 1);
        Ok((cs.subrange(i, j), j))
    }
}

/// A reference `$(name)` or `${name}` whose opening bracket is at `i`.
pub open spec fn bracket_ref(cs: Seq<char>, i: int, end: char) -> core::result::Result<
    (Seq<char>, int),
    ErrorView,
> {
    let scanned = bracket_scan(cs, i + 1, i + 1, end, cs[i]);
    if scanned is Err {
        Err(scanned->Err_0)
    } else {
        let j = scanned->Ok_0;
        if j >= cs.len() {
            Err(build_error("unclosed variable reference"@))
        } else if j == i + 1 {
            Err(build_error("empty variable reference"@))
        } else {
            Ok((cs.subrange(i + 1, j), j + 1))
        }
    }
}

pub proof fn lemma_ident_end(cs: Seq<char>, j: int)
    requires
        0 <= j <= cs.len(),
    ensures
        j <= ident_end(cs, j) <= cs.len(),
        forall|k: int| j <= k < ident_end(cs, j) ==> ident_char(#[trigger] cs[k], false),
        ident_end(cs, j) < cs.len() ==> !ident_char(cs[ident_end(cs, j)], false),
    decreases cs.len() - j,
{
    if j < cs.len() && ident_char(cs[j], false) {
        lemma_ident_end(cs, j + 1);
    }
}

pub proof fn lemma_bracket_scan(cs: Seq<char>, start: int, j: int, end: char, open: char)
    requires
        0 <= start <= j <= cs.len(),
    ensures
        bracket_scan(cs, start, j, end, open) matches Ok(k) ==> j <= k <= cs.len() && (k < cs.len()
            ==> cs[k] == end),
    decreases cs.len() - j,
{
    if j < cs.len() && cs[j] != end && ident_char(cs[j], j == start) {
        lemma_bracket_scan(cs, start, j + 1, end, open);
    }
}

pub proof fn lemma_parse_ref_advances(cs: Seq<char>, i: int)
    requires
        0 <= i,
    ensures
        parse_ref_spec(cs, i) matches Ok((name, next)) ==> i <= next <= cs.len() && (name.len()
            > 0 ==> i < next),
{
    if i < cs.len() {
        if cs[i] == '(' || cs[i] == '{' {
            lemma_bracket_scan(cs, i + 1, i + 1, ')', cs[i]);
            lemma_bracket_scan(cs, i + 1, i + 1, '}', cs[i]);
        } else if ident_char(cs[i], true) {
            lemma_ident_end(cs, i + 1);
        }
    }
}

/// The expansion of `cs[i..]`, appended to `acc`.
pub open spec fn expand_from(cs: Seq<char>, i: int, c: CtxView, acc: Seq<char>) -> core::result::Result<
    Seq<char>,
    ErrorView,
>
    decreases cs.len() - i,
{
    if i < 0 || i >= cs.len() {
        Ok(acc)
    } else if cs[i] != '$' {
        expand_from(cs, i + 1, c, acc.push(cs[i]))
    } else if i + 1 < cs.len() && cs[i + 1] == '$' {
        expand_from(cs, i + 2, c, acc.push('$'))
    } else if i + 1 >= cs.len() {
        Ok(acc.push('$'))
    } else {
        proof {
            lemma_parse_ref_advances(cs, i + 1);
        }
        match parse_ref_spec(cs, i + 1) {
            Err(e) => Err(e),
            Ok((name, next)) => if name.len() == 0 {
                expand_from(cs, next, c, acc.push('$'))
            } else {
                match lookup_value(c, name) {
                    Err(e) => Err(e),
                    Ok(v) => expand_from(cs, next, c, acc + v),
                }
            },
        }
    }
}

/// The expansion of a text: `$$` is a `$`, `$name`, `$(name)` and `${name}`
/// are the value of the name, a `$` that starts no name stays.
pub open spec fn expanded(input: Seq<char>, c: CtxView) -> core::result::Result<
    Seq<char>,
    ErrorView,
> {
    expand_from(input, 0, c, seq![])
}

impl<'a> ExpandCtx<'a> {
    pub fn from_build(build: &'a BuildFile, specials: &'a FxHashMap<String, String>) -> (r: Self)
        ensures
            r@ == (CtxView {
                tools: build@.tools,
                flags: build@.flags,
                vars: build@.vars,
                arrays: build@.arrays,
                specials: text_entries(*specials),
            }),
            r.file@ == build.file@,
    {
        ExpandCtx {
            file: build.file.as_str(),
            tools: &build.tools,
            flags: &build.flags,
            vars: &build.vars,
            arrays: &build.arrays,
            specials,
        }
    }

    /// The value of a name in this context.
    pub fn lookup(&self, name: &str) -> (r: Result<String>)
        ensures
            r matches Ok(v) ==> lookup_value(self@, name@) == Ok::<Seq<char>, ErrorView>(v@),
            r matches Err(e) ==> lookup_value(self@, name@) == Err::<Seq<char>, ErrorView>(e@),
    {
        if let Some(v) = text_map_get(self.specials, name) {
            return Ok(v.clone());
        }
        if let Some(v) = text_map_get(self.tools, name) {
            return Ok(shell_quote(v.as_str()));
        }
        if let Some(v) = list_map_get(self.flags, name) {
            return Ok(shell_join(v));
        }
        if let Some(v) = text_map_get(self.vars, name) {
            return Ok(shell_quote(v.as_str()));
        }
        if let Some(v) = list_map_get(self.arrays, name) {
            return Ok(shell_join(v));
        }
        let mut msg = String::new();
        push_str(&mut msg, "unknown variable '");
        push_str(&mut msg, name);
        push_str(&mut msg, "'");
        Err(KageError::build(msg))
    }
}

fn ident_end_exec(cs: &Vec<char>, j: usize) -> (r: usize)
    requires
        j <= cs@.len(),
    ensures
        r == ident_end(cs@, j as int),
{
    let mut k = j;
    while k < cs.len() && is_ident_char(cs[k], false)
        invariant
            j <= k <= cs@.len(),
            ident_end(cs@, j as int) == ident_end(cs@, k as int),
        decreases cs@.len() - k,
    {
        k = k + 1;
    }
    k
}

fn bracket_error(open: char) -> (r: KageError)
    ensures
        r@ == build_error("invalid variable name in '$"@ + seq![open] + "...'"@),
{
    let mut msg = String::new();
    push_str(&mut msg, "invalid variable name in '$");
    let ghost a = msg@;
    push_char(&mut msg, open);
    assert(msg@ == a + seq![open]);
    push_str(&mut msg, "...'");
    KageError::build(msg)
}

fn build_err(msg: &str) -> (r: KageError)
    ensures
        r@ == build_error(msg@),
{
    KageError::build(msg.to_owned())
}

/// Reads the variable reference that starts at `i`, just after a `$`.
pub fn parse_ref(cs: &Vec<char>, i: usize) -> (r: Result<(String, usize)>)
    ensures
        r matches Ok((name, next)) ==> parse_ref_spec(cs@, i as int) == Ok::<
            (Seq<char>, int),
            ErrorView,
        >((name@, next as int)),
        r matches Err(e) ==> parse_ref_spec(cs@, i as int) == Err::<(Seq<char>, int), ErrorView>(
            e@,
        ),
{
    if i >= cs.len() {
        return Err(build_err("dangling '$' in expansion"));
    }
    let open = cs[i];
    if open == '(' || open == '{' {
        let end = if open == '(' {
            ')'
        } else {
            '}'
        };
        let start = i + 1;
        let mut j = start;
        while j < cs.len() && cs[j] != end
            invariant
                start <= j <= cs@.len(),
                start == i + 1,
                i < cs@.len(),
                open == cs@[i as int],
                open == '(' || open == '{',
                end == (if open == '(' {
                    ')'
                } else {
                    '}'
                }),
                bracket_scan(cs@, start as int, start as int, end, open) == bracket_scan(
                    cs@,
                    start as int,
                    j as int,
                    end,
                    open,
                ),
            decreases cs@.len() - j,
        {
            if !is_ident_char(cs[j], j == start) {
                let e = bracket_error(open);
                assert(bracket_scan(cs@, start as int, j as int, end, open) == Err::<int, ErrorView>(e@));
                return Err(e);
            }
            j = j + 1;
        }
        if j >= cs.len() {
            return Err(build_err("unclosed variable reference"));
        }
        if j == start {
            return Err(build_err("empty variable reference"));
        }
        let name = string_of_range(cs, start, j);
        Ok((name, j + 1))
    } else {
        if !is_ident_char(open, true) {
            return Ok((String::new(), i));
        }
        let j = ident_end_exec(cs, i + 1);
        proof {
            lemma_ident_end(cs@, i + 1);
        }
        let name = string_of_range(cs, i, j);
        Ok((name, j))
    }
}

/// Expands the `$` references of a text.
pub fn expand(input: &str, ctx: &ExpandCtx) -> (r: Result<String>)
    ensures
        r matches Ok(v) ==> expanded(input@, ctx@) == Ok::<Seq<char>, ErrorView>(v@),
        r matches Err(e) ==> expanded(input@, ctx@) == Err::<Seq<char>, ErrorView>(e@),
{
    let cs = chars_of(input);
    let mut out = String::new();
    let mut i: usize = 0;
    while i < cs.len()
        invariant
            i <= cs@.len(),
            cs@ == input@,
            expanded(input@, ctx@) == expand_from(cs@, i as int, ctx@, out@),
        decreases cs@.len() - i,
    {
        if cs[i] != '$' {
            push_char(&mut out, cs[i]);
            i = i + 1;
            continue;
        }
        if i + 1 < cs.len() && cs[i + 1] == '$' {
            push_char(&mut out, '$');
            i = i + 2;
            continue;
        }
        if i + 1 >= cs.len() {
            push_char(&mut out, '$');
            return Ok(out);
        }
        proof {
            lemma_parse_ref_advances(cs@, i + 1);
        }
        let (name, next) = match parse_ref(&cs, i + 1) {
            Ok(p) => p,
            Err(e) => {
                return Err(e);
            },
        };
        if name.as_str().is_empty() {
            push_char(&mut out, '$');
            i = next;
            continue;
        }
        let v = match ctx.lookup(name.as_str()) {
            Ok(v) => v,
            Err(e) => {
                return Err(e);
            },
        };
        push_str(&mut out, v.as_str());
        i = next;
    }
    Ok(out)
}


/// A name as `$name` takes it: a letter or `_`, then letters, digits or `_`.
pub open spec fn is_name(n: Seq<char>) -> bool {
    &&& n.len() > 0
    &&& ident_char(n[0], true)
    &&& forall|k: int| 0 < k < n.len() ==> ident_char(#[trigger] n[k], false)
}

proof fn lemma_ident_run(cs: Seq<char>, j: int)
    requires
        0 <= j <= cs.len(),
        forall|k: int| j <= k < cs.len() ==> ident_char(#[trigger] cs[k], false),
    ensures
        ident_end(cs, j) == cs.len(),
    decreases cs.len() - j,
{
    if j < cs.len() {
        lemma_ident_run(cs, j + 1);
    }
}

proof fn lemma_scan_name(cs: Seq<char>, start: int, j: int, stop: int, end: char, open: char)
    requires
        0 <= start <= j <= stop < cs.len(),
        cs[stop] == end,
        forall|k: int| j <= k < stop ==> cs[k] != end && ident_char(#[trigger] cs[k], k == start),
    ensures
        bracket_scan(cs, start, j, end, open) == Ok::<int, ErrorView>(stop),
    decreases stop - j,
{
    if j < stop {
        lemma_scan_name(cs, start, j + 1, stop, end, open);
    }
}

proof fn lemma_ref_only(cs: Seq<char>, n: Seq<char>, c: CtxView)
    requires
        cs.len() >= 2,
        cs[0] == '$',
        cs[1] != '$',
        n.len() > 0,
        parse_ref_spec(cs, 1) == Ok::<(Seq<char>, int), ErrorView>((n, cs.len() as int)),
    ensures
        expanded(cs, c) == lookup_value(c, n),
{
    match lookup_value(c, n) {
        Ok(v) => {
            assert(Seq::<char>::empty() + v =~= v);
            assert(expand_from(cs, cs.len() as int, c, Seq::<char>::empty() + v) == Ok::<Seq<char>, ErrorView>(
                Seq::<char>::empty() + v,
            ));
        },
        Err(e) => {},
    }
}

/// `$name`, `$(name)` and `${name}` expand alike: each to the value of the
/// name, or to the error of looking it up.
pub proof fn lemma_reference_forms(n: Seq<char>, c: CtxView)
    requires
        is_name(n),
    ensures
        expanded(seq!['$'] + n, c) == lookup_value(c, n),
        expanded(seq!['$', '('] + n + seq![')'], c) == lookup_value(c, n),
        expanded(seq!['$', '{'] + n + seq!['}'], c) == lookup_value(c, n),
{
    let bare = seq!['$'] + n;
    assert forall|k: int| 1 <= k < bare.len() implies ident_char(#[trigger] bare[k], false) by {
        assert(bare[k] == n[k - 1]);
    }
    lemma_ident_run(bare, 2);
    assert(bare[1] == n[0]);
    assert(bare.subrange(1, bare.len() as int) =~= n);
    assert(parse_ref_spec(bare, 1) == Ok::<(Seq<char>, int), ErrorView>((n, bare.len() as int)));
    lemma_ref_only(bare, n, c);
    let round = seq!['$', '('] + n + seq![')'];
    let stop = (n.len() + 2) as int;
    assert forall|k: int| 2 <= k < stop implies round[k] != ')' && ident_char(#[trigger] round[k], k == 2) by {
        assert(round[k] == n[k - 2]);
    }
    lemma_scan_name(round, 2, 2, stop, ')', '(');
    assert(round.subrange(2, stop) =~= n);
    assert(parse_ref_spec(round, 1) == Ok::<(Seq<char>, int), ErrorView>((n, round.len() as int)));
    lemma_ref_only(round, n, c);
    let curly = seq!['$', '{'] + n + seq!['}'];
    assert forall|k: int| 2 <= k < stop implies curly[k] != '}' && ident_char(#[trigger] curly[k], k == 2) by {
        assert(curly[k] == n[k - 2]);
    }
    lemma_scan_name(curly, 2, 2, stop, '}', '{');
    assert(curly.subrange(2, stop) =~= n);
    assert(parse_ref_spec(curly, 1) == Ok::<(Seq<char>, int), ErrorView>((n, curly.len() as int)));
    lemma_ref_only(curly, n, c);
}


// ---------------------------------------------------------------------------
// How a shell reads a quoted word
/// `p` in front of what `o` holds.
pub open spec fn prepend(p: Seq<char>, o: Option<Seq<char>>) -> Option<Seq<char>> {
    match o {
        Some(x) => Some(p + x),
        None => None,
    }
}

/// The value of `t` as one word of a POSIX shell command, read from the
/// state `quoted` (inside single quotes): a single quote opens or closes a
/// quoted part, in which every other character stands for itself; outside
/// one, a backslash stands for the character after it (other than a line
/// feed) and a safe character for itself.  Anything else (a blank, or a
/// character that starts an expansion, a glob or an operator), or an
/// unclosed quote, makes `t` no single literal word (`None`).
pub open spec fn shell_word(t: Seq<char>, quoted: bool) -> Option<Seq<char>>
    decreases t.len(),
{
    if t.len() == 0 {
        if quoted {
            None
        } else {
            Some(seq![])
        }
    } else {
        let c = t[0];
        let rest = t.drop_first();
        if quoted {
            if c == '\'' {
                shell_word(rest, false)
            } else {
                prepend(seq![c], shell_word(rest, true))
            }
        } else if c == '\'' {
            shell_word(rest, true)
        } else if c == '\\' && rest.len() > 0 && rest[0] != '\n' {
            prepend(seq![rest[0]], shell_word(rest.drop_first(), false))
        } else if is_shell_safe(c) {
            prepend(seq![c], shell_word(rest, false))
        } else {
            None
        }
    }
}

proof fn lemma_quote_body_concat(a: Seq<char>, b: Seq<char>)
    ensures
        quote_body(a + b) == quote_body(a) + quote_body(b),
    decreases b.len(),
{
    if b.len() == 0 {
        assert(a + b =~= a);
        assert(quote_body(a) + quote_body(b) =~= quote_body(a));
    } else {
        lemma_quote_body_concat(a, b.drop_last());
        assert((a + b).drop_last() =~= a + b.drop_last());
        assert((a + b).last() == b.last());
        if b.last() == '\'' {
            assert(quote_body(a + b) =~= quote_body(a) + quote_body(b));
        } else {
            assert(quote_body(a + b) =~= quote_body(a) + quote_body(b));
        }
    }
}

proof fn lemma_safe_word(s: Seq<char>, r: Seq<char>)
    requires
        forall|i: int| 0 <= i < s.len() ==> is_shell_safe(#[trigger] s[i]),
    ensures
        shell_word(s + r, false) == prepend(s, shell_word(r, false)),
    decreases s.len(),
{
    if s.len() == 0 {
        assert(s + r =~= r);
        match shell_word(r, false) {
            Some(x) => {
                assert(s + x =~= x);
            },
            None => {},
        }
    } else {
        let t = s + r;
        assert(t[0] == s[0]);
        assert(t.drop_first() =~= s.drop_first() + r);
        assert(is_shell_safe(s[0]));
        assert forall|i: int| 0 <= i < s.drop_first().len() implies is_shell_safe(#[trigger] s.drop_first()[i]) by {
            assert(s.drop_first()[i] == s[i + 1]);
        }
        lemma_safe_word(s.drop_first(), r);
        match shell_word(r, false) {
            Some(x) => {
                assert(seq![s[0]] + (s.drop_first() + x) =~= s + x);
            },
            None => {},
        }
    }
}

proof fn lemma_quoted_body(s: Seq<char>, r: Seq<char>)
    ensures
        shell_word(quote_body(s) + r, true) == prepend(s, shell_word(r, true)),
    decreases s.len(),
{
    if s.len() == 0 {
        assert(quote_body(s) + r =~= r);
        match shell_word(r, true) {
            Some(x) => {
                assert(s + x =~= x);
            },
            None => {},
        }
    } else {
        let c = s[0];
        let tail = s.drop_first();
        assert(s =~= seq![c] + tail);
        lemma_quote_body_concat(seq![c], tail);
        assert(seq![c].drop_last() =~= Seq::<char>::empty());
        assert(seq![c].last() == c);
        assert(quote_body(Seq::<char>::empty()) =~= Seq::<char>::empty());
        assert(quote_body(seq![c].drop_last()) =~= Seq::<char>::empty());
        lemma_quoted_body(tail, r);
        let t = quote_body(s) + r;
        if c == '\'' {
            assert(quote_body(seq![c]) =~= seq!['\'', '\\', '\'', '\'']);
            let t1 = seq!['\\', '\'', '\''] + quote_body(tail) + r;
            assert(t =~= seq!['\''] + t1);
            assert(t.drop_first() =~= t1);
            let t2 = seq!['\''] + quote_body(tail) + r;
            assert(t1.drop_first() =~= seq!['\''] + t2);
            assert(t1.drop_first()[0] == '\'');
            assert(t1.drop_first().drop_first() =~= t2);
            assert(t2.drop_first() =~= quote_body(tail) + r);
            assert(t[0] == '\'');
            assert(t1[0] == '\\');
            assert(t2[0] == '\'');
            assert(shell_word(t2, false) == shell_word(quote_body(tail) + r, true));
            assert(shell_word(t1, false) == prepend(seq!['\''], shell_word(t2, false)));
            assert(shell_word(t, true) == shell_word(t1, false));
        } else {
            assert(quote_body(seq![c]) =~= seq![c]);
            assert(t =~= seq![c] + (quote_body(tail) + r));
            assert(t.drop_first() =~= quote_body(tail) + r);
            assert(t[0] == c);
            assert(shell_word(t, true) == prepend(seq![c], shell_word(quote_body(tail) + r, true)));
        }
        match shell_word(r, true) {
            Some(x) => {
                assert(seq![c] + (tail + x) =~= s + x);
            },
            None => {},
        }
    }
}

/// A POSIX shell reads what `shell_quote` gives as one word whose value is
/// the text quoted: no expansion, globbing or splitting touches it.
pub proof fn lemma_shell_quote_reads_back(s: Seq<char>)
    ensures
        shell_word(shell_quoted(s), false) == Some(s),
{
    if s.len() == 0 {
        let t = seq!['\'', '\''];
        assert(t.drop_first() =~= seq!['\'']);
        assert(t.drop_first().drop_first() =~= Seq::<char>::empty());
    } else if forall|i: int| 0 <= i < s.len() ==> is_shell_safe(#[trigger] s[i]) {
        lemma_safe_word(s, seq![]);
        assert(s + Seq::<char>::empty() =~= s);
        assert(shell_word(Seq::<char>::empty(), false) == Some(Seq::<char>::empty()));
    } else {
        let t = seq!['\''] + quote_body(s) + seq!['\''];
        assert(t.drop_first() =~= quote_body(s) + seq!['\'']);
        lemma_quoted_body(s, seq!['\'']);
        let q = seq!['\''];
        assert(q.drop_first() =~= Seq::<char>::empty());
        assert(shell_word(q, true) == Some(Seq::<char>::empty()));
        assert(s + Seq::<char>::empty() =~= s);
    }
}

} // verus!
