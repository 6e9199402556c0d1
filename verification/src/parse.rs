//! The build description: its syntax tree and the parser that builds it.
use vstd::prelude::*;

use rustc_hash::FxHashMap;

use crate::error::{parse_error, ErrorView, KageError, Result};
use crate::fxmap::{
    instruction_entries, instruction_map_get, instruction_map_insert, instruction_map_new,
    list_entries, list_map_get, list_map_insert, list_map_new, list_map_remove, text_entries,
    text_map_get, text_map_insert, text_map_new,
};
use crate::lexer::{lemma_lex_ends, lex, token_views, tokenize, Token, TokenKind, TokenView};
use crate::strutil::{clone_strings, push_str, str_eq, views};
use vstd::string::StringSliceAdditionalSpecFns;

verus! {

/// How an instruction reports the headers its command read.
#[derive(Debug, Clone, Copy, PartialEq, Eq, Structural)]
pub enum DepFormat {
    NoDeps,
    Gcc,
}

/// A named command template.
#[derive(Debug)]
pub struct Instruction {
    pub name: String,
    pub command: String,
    pub description: Option<String>,
    pub depformat: DepFormat,
    pub depfile: Option<String>,
    pub restat: bool,
    pub line: u32,
}

#[verifier::ext_equal]
pub struct InstructionView {
    pub name: Seq<char>,
    pub command: Seq<char>,
    pub description: Option<Seq<char>>,
    pub depformat: DepFormat,
    pub depfile: Option<Seq<char>>,
    pub restat: bool,
    pub line: u32,
}

pub open spec fn opt_view(o: Option<String>) -> Option<Seq<char>> {
    match o {
        Some(s) => Some(s@),
        None => None,
    }
}

impl View for Instruction {
    type V = InstructionView;

    open spec fn view(&self) -> InstructionView {
        InstructionView {
            name: self.name@,
            command: self.command@,
            description: opt_view(self.description),
            depformat: self.depformat,
            depfile: opt_view(self.depfile),
            restat: self.restat,
            line: self.line,
        }
    }
}

/// A `compile` or `link` statement.
#[derive(Debug)]
pub enum Statement {
    Compile {
        instruction: String,
        inputs: Vec<String>,
        order_only_inputs: Vec<String>,
        outputs: Vec<String>,
        line: u32,
    },
    Link {
        inputs: Vec<String>,
        order_only_inputs: Vec<String>,
        outputs: Vec<String>,
        line: u32,
    },
}

#[verifier::ext_equal]
pub enum StatementView {
    Compile {
        instruction: Seq<char>,
        inputs: Seq<Seq<char>>,
        order_only_inputs: Seq<Seq<char>>,
        outputs: Seq<Seq<char>>,
        line: u32,
    },
    Link {
        inputs: Seq<Seq<char>>,
        order_only_inputs: Seq<Seq<char>>,
        outputs: Seq<Seq<char>>,
        line: u32,
    },
}

impl View for Statement {
    type V = StatementView;

    open spec fn view(&self) -> StatementView {
        match self {
            Statement::Compile { instruction, inputs, order_only_inputs, outputs, line } =>
                StatementView::Compile {
                instruction: instruction@,
                inputs: views(inputs@),
                order_only_inputs: views(order_only_inputs@),
                outputs: views(outputs@),
                line: *line,
            },
            Statement::Link { inputs, order_only_inputs, outputs, line } => StatementView::Link {
                inputs: views(inputs@),
                order_only_inputs: views(order_only_inputs@),
                outputs: views(outputs@),
                line: *line,
            },
        }
    }
}

/// A parsed build description.
#[derive(Debug)]
pub struct BuildFile {
    pub file: String,
    pub tools: FxHashMap<String, String>,
    pub flags: FxHashMap<String, Vec<String>>,
    pub vars: FxHashMap<String, String>,
    pub instructions: FxHashMap<String, Instruction>,
    pub arrays: FxHashMap<String, Vec<String>>,
    pub statements: Vec<Statement>,
    pub defaults: Vec<String>,
}

#[verifier::ext_equal]
pub struct BuildView {
    pub file: Seq<char>,
    pub tools: Map<Seq<char>, Seq<char>>,
    pub flags: Map<Seq<char>, Seq<Seq<char>>>,
    pub vars: Map<Seq<char>, Seq<char>>,
    pub instructions: Map<Seq<char>, InstructionView>,
    pub arrays: Map<Seq<char>, Seq<Seq<char>>>,
    pub statements: Seq<StatementView>,
    pub defaults: Seq<Seq<char>>,
}

pub open spec fn statement_views(s: Seq<Statement>) -> Seq<StatementView> {
    s.map_values(|t: Statement| t@)
}

impl View for BuildFile {
    type V = BuildView;

    open spec fn view(&self) -> BuildView {
        BuildView {
            file: self.file@,
            tools: text_entries(self.tools),
            flags: list_entries(self.flags),
            vars: text_entries(self.vars),
            instructions: instruction_entries(self.instructions),
            arrays: list_entries(self.arrays),
            statements: statement_views(self.statements@),
            defaults: views(self.defaults@),
        }
    }
}

// ---------------------------------------------------------------------------
// The parser, stated over the token sequence.
pub type SpecResult<T> = core::result::Result<T, ErrorView>;

/// The tokens end with the end-of-input token.
pub open spec fn toks_ok(ts: Seq<TokenView>) -> bool {
    ts.len() > 0 && ts.last().kind == TokenKind::Eof
}

/// The token at `p`; past the end, the last token.
pub open spec fn tok(ts: Seq<TokenView>, p: int) -> TokenView {
    if p < ts.len() - 1 {
        ts[p]
    } else {
        ts[ts.len() - 1]
    }
}

/// The position after the token at `p`; the last token is never passed.
pub open spec fn next(ts: Seq<TokenView>, p: int) -> int {
    if p + 1 < ts.len() {
        p + 1
    } else {
        p
    }
}

/// A parse error at the token at `p`.
pub open spec fn err_at(ts: Seq<TokenView>, f: Seq<char>, p: int, msg: Seq<char>) -> ErrorView {
    parse_error(f, tok(ts, p).line as u32, tok(ts, p).col as u32, msg)
}

pub open spec fn expect_spec(
    ts: Seq<TokenView>,
    f: Seq<char>,
    p: int,
    kind: TokenKind,
    what: Seq<char>,
) -> SpecResult<int> {
    if tok(ts, p).kind == kind {
        Ok(next(ts, p))
    } else {
        Err(err_at(ts, f, p, "expected "@ + what))
    }
}

/// A word or string and where it stands.
pub struct WordAt {
    pub text: Seq<char>,
    pub line: int,
    pub col: int,
}

pub open spec fn is_wordish(k: TokenKind) -> bool {
    k == TokenKind::Word || k == TokenKind::Str
}

pub open spec fn expect_word_spec(ts: Seq<TokenView>, f: Seq<char>, p: int, what: Seq<char>) -> SpecResult<
    (WordAt, int),
> {
    let t = tok(ts, p);
    if is_wordish(t.kind) {
        Ok((WordAt { text: t.text, line: t.line, col: t.col }, next(ts, p)))
    } else {
        Err(err_at(ts, f, p, "expected "@ + what))
    }
}

/// Words up to a token of kind `s1`, `s2` or the end of input.
pub open spec fn word_list_spec(
    ts: Seq<TokenView>,
    f: Seq<char>,
    p: int,
    s1: TokenKind,
    s2: TokenKind,
    acc: Seq<Seq<char>>,
) -> SpecResult<(Seq<Seq<char>>, int)>
    decreases ts.len() - p,
{
    let k = tok(ts, p).kind;
    if p < 0 || p >= ts.len() || k == s1 || k == s2 || k == TokenKind::Eof {
        Ok((acc, p))
    } else {
        match expect_word_spec(ts, f, p, "path or name"@) {
            Err(e) => Err(e),
            Ok((w, q)) => if q <= p {
                Ok((acc, p))
            } else {
                word_list_spec(ts, f, q, s1, s2, acc.push(w.text))
            },
        }
    }
}

/// The items of a bracketed list after its `[` (and its first item).
pub open spec fn comma_items(ts: Seq<TokenView>, f: Seq<char>, p: int, acc: Seq<Seq<char>>) -> SpecResult<
    (Seq<Seq<char>>, int),
>
    decreases ts.len() - p,
{
    if p < 0 || p >= ts.len() {
        Ok((acc, p))
    } else {
        match expect_word_spec(ts, f, p, "list item"@) {
            Err(e) => Err(e),
            Ok((w, q)) => {
                let acc2 = acc.push(w.text);
                if tok(ts, q).kind == TokenKind::Comma {
                    let q2 = next(ts, q);
                    if tok(ts, q2).kind == TokenKind::RBracket {
                        Ok((acc2, next(ts, q2)))
                    } else if q2 <= p {
                        Ok((acc2, q2))
                    } else {
                        comma_items(ts, f, q2, acc2)
                    }
                } else {
                    match expect_spec(ts, f, q, TokenKind::RBracket, "',' or ']'"@) {
                        Err(e) => Err(e),
                        Ok(q3) => Ok((acc2, q3)),
                    }
                }
            },
        }
    }
}

/// `[ item, ... ]` with an optional trailing comma.
pub open spec fn comma_list_spec(ts: Seq<TokenView>, f: Seq<char>, p: int) -> SpecResult<
    (Seq<Seq<char>>, int),
> {
    match expect_spec(ts, f, p, TokenKind::LBracket, "'['"@) {
        Err(e) => Err(e),
        Ok(p1) => if tok(ts, p1).kind == TokenKind::RBracket {
            Ok((seq![], next(ts, p1)))
        } else {
            comma_items(ts, f, p1, seq![])
        },
    }
}

/// An `include` statement and where its keyword stands.
pub struct IncludeAt {
    pub rel: Seq<char>,
    pub line: int,
    pub col: int,
}

/// What a statement leaves: the position after it, the build, and the file
/// to include when it is an `include`.
pub struct Stmt {
    pub pos: int,
    pub build: BuildView,
    pub nested: Option<IncludeAt>,
}

pub open spec fn plain(pos: int, build: BuildView) -> Stmt {
    Stmt { pos, build, nested: None }
}

pub open spec fn redefined_msg(what: Seq<char>, name: Seq<char>) -> Seq<char> {
    what + " '"@ + name + "' redefined"@
}

pub open spec fn with_tools(b: BuildView, m: Map<Seq<char>, Seq<char>>) -> BuildView {
    BuildView { tools: m, ..b }
}

pub open spec fn with_vars(b: BuildView, m: Map<Seq<char>, Seq<char>>) -> BuildView {
    BuildView { vars: m, ..b }
}

pub open spec fn with_flags(b: BuildView, m: Map<Seq<char>, Seq<Seq<char>>>) -> BuildView {
    BuildView { flags: m, ..b }
}

pub open spec fn with_arrays(b: BuildView, m: Map<Seq<char>, Seq<Seq<char>>>) -> BuildView {
    BuildView { arrays: m, ..b }
}

/// `tool name = value;`
pub open spec fn tool_spec(ts: Seq<TokenView>, f: Seq<char>, p: int, b: BuildView) -> SpecResult<Stmt> {
    match expect_word_spec(ts, f, next(ts, p), "tool name"@) {
        Err(e) => Err(e),
        Ok((name, p2)) => match expect_spec(ts, f, p2, TokenKind::Equals, "'='"@) {
            Err(e) => Err(e),
            Ok(p3) => match expect_word_spec(ts, f, p3, "tool path"@) {
                Err(e) => Err(e),
                Ok((value, p4)) => match expect_spec(ts, f, p4, TokenKind::Semi, "';'"@) {
                    Err(e) => Err(e),
                    Ok(p5) => if b.tools.contains_key(name.text) {
                        Err(
                            parse_error(
                                f,
                                name.line as u32,
                                name.col as u32,
                                redefined_msg("tool"@, name.text),
                            ),
                        )
                    } else {
                        Ok(plain(p5, with_tools(b, b.tools.insert(name.text, value.text))))
                    },
                },
            },
        },
    }
}

/// `var name = value;`
pub open spec fn var_spec(ts: Seq<TokenView>, f: Seq<char>, p: int, b: BuildView) -> SpecResult<Stmt> {
    match expect_word_spec(ts, f, next(ts, p), "variable name"@) {
        Err(e) => Err(e),
        Ok((name, p2)) => match expect_spec(ts, f, p2, TokenKind::Equals, "'='"@) {
            Err(e) => Err(e),
            Ok(p3) => match expect_word_spec(ts, f, p3, "variable value"@) {
                Err(e) => Err(e),
                Ok((value, p4)) => match expect_spec(ts, f, p4, TokenKind::Semi, "';'"@) {
                    Err(e) => Err(e),
                    Ok(p5) => if b.vars.contains_key(name.text) {
                        Err(
                            parse_error(
                                f,
                                name.line as u32,
                                name.col as u32,
                                redefined_msg("variable"@, name.text),
                            ),
                        )
                    } else {
                        Ok(plain(p5, with_vars(b, b.vars.insert(name.text, value.text))))
                    },
                },
            },
        },
    }
}

/// `flags name = [ ... ];` and `array name = [ ... ];`
pub open spec fn list_decl_spec(
    ts: Seq<TokenView>,
    f: Seq<char>,
    p: int,
    b: BuildView,
    is_array: bool,
) -> SpecResult<Stmt> {
    let what = if is_array {
        "array name"@
    } else {
        "flags name"@
    };
    match expect_word_spec(ts, f, next(ts, p), what) {
        Err(e) => Err(e),
        Ok((name, p2)) => match expect_spec(ts, f, p2, TokenKind::Equals, "'='"@) {
            Err(e) => Err(e),
            Ok(p3) => match comma_list_spec(ts, f, p3) {
                Err(e) => Err(e),
                Ok((items, p4)) => match expect_spec(ts, f, p4, TokenKind::Semi, "';'"@) {
                    Err(e) => Err(e),
                    Ok(p5) => if is_array {
                        if b.arrays.contains_key(name.text) {
                            Err(
                                parse_error(
                                    f,
                                    name.line as u32,
                                    name.col as u32,
                                    redefined_msg("array"@, name.text),
                                ),
                            )
                        } else {
                            Ok(plain(p5, with_arrays(b, b.arrays.insert(name.text, items))))
                        }
                    } else {
                        if b.flags.contains_key(name.text) {
                            Err(
                                parse_error(
                                    f,
                                    name.line as u32,
                                    name.col as u32,
                                    redefined_msg("flags"@, name.text),
                                ),
                            )
                        } else {
                            Ok(plain(p5, with_flags(b, b.flags.insert(name.text, items))))
                        }
                    },
                },
            },
        },
    }
}

/// The value of a `restat` field.
pub open spec fn restat_value(v: Seq<char>) -> Option<bool> {
    if v == "true"@ || v == "yes"@ || v == "1"@ {
        Some(true)
    } else if v == "false"@ || v == "no"@ || v == "0"@ {
        Some(false)
    } else {
        None
    }
}

/// One `field: value;` of an instruction applied to `inst`.
pub open spec fn apply_field(
    f: Seq<char>,
    field: WordAt,
    value: Seq<char>,
    inst: InstructionView,
) -> SpecResult<InstructionView> {
    if field.text == "command"@ {
        Ok(InstructionView { command: value, ..inst })
    } else if field.text == "description"@ {
        Ok(InstructionView { description: Some(value), ..inst })
    } else if field.text == "depfile"@ {
        Ok(InstructionView { depfile: Some(value), ..inst })
    } else if field.text == "depformat"@ {
        if value == "gcc"@ {
            Ok(InstructionView { depformat: DepFormat::Gcc, ..inst })
        } else if value == "none"@ {
            Ok(InstructionView { depformat: DepFormat::NoDeps, ..inst })
        } else {
            Err(
                parse_error(
                    f,
                    field.line as u32,
                    field.col as u32,
                    "unknown depformat '"@ + value + "' (use gcc or none)"@,
                ),
            )
        }
    } else if field.text == "restat"@ {
        match restat_value(value) {
            Some(r) => Ok(InstructionView { restat: r, ..inst }),
            None => Err(
                parse_error(
                    f,
                    field.line as u32,
                    field.col as u32,
                    "expected true or false, got '"@ + value + "'"@,
                ),
            ),
        }
    } else {
        Err(
            parse_error(
                f,
                field.line as u32,
                field.col as u32,
                "unknown instruction field '"@ + field.text + "'"@,
            ),
        )
    }
}

/// The fields of an instruction, up to `}` or the end of input.
pub open spec fn fields_spec(ts: Seq<TokenView>, f: Seq<char>, p: int, inst: InstructionView) -> SpecResult<
    (InstructionView, int),
>
    decreases ts.len() - p,
{
    let k = tok(ts, p).kind;
    if p < 0 || p >= ts.len() || k == TokenKind::RBrace || k == TokenKind::Eof {
        Ok((inst, p))
    } else {
        match expect_word_spec(ts, f, p, "field name"@) {
            Err(e) => Err(e),
            Ok((field, q1)) => match expect_spec(ts, f, q1, TokenKind::Colon, "':'"@) {
                Err(e) => Err(e),
                Ok(q2) => match expect_word_spec(ts, f, q2, "field value"@) {
                    Err(e) => Err(e),
                    Ok((value, q3)) => match expect_spec(ts, f, q3, TokenKind::Semi, "';'"@) {
                        Err(e) => Err(e),
                        Ok(q4) => match apply_field(f, field, value.text, inst) {
                            Err(e) => Err(e),
                            Ok(inst2) => if q4 <= p {
                                Ok((inst2, q4))
                            } else {
                                fields_spec(ts, f, q4, inst2)
                            },
                        },
                    },
                },
            },
        }
    }
}

pub open spec fn empty_instruction(name: Seq<char>, line: int) -> InstructionView {
    InstructionView {
        name,
        command: seq![],
        description: None,
        depformat: DepFormat::NoDeps,
        depfile: None,
        restat: false,
        line: line as u32,
    }
}

/// `instruction name { field: value; ... }`
pub open spec fn instruction_spec(ts: Seq<TokenView>, f: Seq<char>, p: int, b: BuildView) -> SpecResult<
    Stmt,
> {
    match expect_word_spec(ts, f, next(ts, p), "instruction name"@) {
        Err(e) => Err(e),
        Ok((name, p2)) => match expect_spec(ts, f, p2, TokenKind::LBrace, "'{'"@) {
            Err(e) => Err(e),
            Ok(p3) => match fields_spec(ts, f, p3, empty_instruction(name.text, name.line)) {
                Err(e) => Err(e),
                Ok((inst, p4)) => match expect_spec(ts, f, p4, TokenKind::RBrace, "'}'"@) {
                    Err(e) => Err(e),
                    Ok(p5) => if inst.command.len() == 0 {
                        Err(
                            parse_error(
                                f,
                                name.line as u32,
                                name.col as u32,
                                "instruction '"@ + name.text + "' is missing a command"@,
                            ),
                        )
                    } else if b.instructions.contains_key(name.text) {
                        Err(
                            parse_error(
                                f,
                                name.line as u32,
                                name.col as u32,
                                redefined_msg("instruction"@, name.text),
                            ),
                        )
                    } else {
                        Ok(
                            plain(
                                p5,
                                BuildView {
                                    instructions: b.instructions.insert(name.text, inst),
                                    ..b
                                },
                            ),
                        )
                    },
                },
            },
        },
    }
}

/// Index of the first `@` word, or the length when there is none.
pub open spec fn marker_index(raw: Seq<Seq<char>>) -> int
    decreases raw.len(),
{
    if raw.len() == 0 {
        0
    } else if raw[0] == seq!['@'] {
        0
    } else {
        1 + marker_index(raw.drop_first())
    }
}

/// The words before the first `@`.
pub open spec fn before_marker(raw: Seq<Seq<char>>) -> Seq<Seq<char>> {
    raw.take(marker_index(raw))
}

/// The words after the first `@` (none when there is no `@`).
pub open spec fn after_marker(raw: Seq<Seq<char>>) -> Seq<Seq<char>> {
    if marker_index(raw) < raw.len() {
        raw.skip(marker_index(raw) + 1)
    } else {
        seq![]
    }
}

/// Link inputs with every array name replaced by the array's items.
pub open spec fn expand_link_inputs(raw: Seq<Seq<char>>, arrays: Map<Seq<char>, Seq<Seq<char>>>) -> Seq<
    Seq<char>,
>
    decreases raw.len(),
{
    if raw.len() == 0 {
        seq![]
    } else {
        let w = raw.last();
        expand_link_inputs(raw.drop_last(), arrays) + if arrays.contains_key(w) {
            arrays[w]
        } else {
            seq![w]
        }
    }
}

/// Array names expand wherever they stand among a link's input tokens:
/// expanding two runs of tokens one after the other gives the expansion of
/// the first followed by that of the second.
pub proof fn lemma_link_inputs_concat(a: Seq<Seq<char>>, b: Seq<Seq<char>>, arrays: Map<Seq<char>, Seq<Seq<char>>>)
    ensures
        expand_link_inputs(a + b, arrays) == expand_link_inputs(a, arrays) + expand_link_inputs(b, arrays),
    decreases b.len(),
{
    if b.len() == 0 {
        assert(a + b =~= a);
        assert(expand_link_inputs(a, arrays) + expand_link_inputs(b, arrays) =~= expand_link_inputs(a, arrays));
    } else {
        assert((a + b).drop_last() =~= a + b.drop_last());
        assert((a + b).last() == b.last());
        lemma_link_inputs_concat(a, b.drop_last(), arrays);
        let w = b.last();
        let x = if arrays.contains_key(w) {
            arrays[w]
        } else {
            seq![w]
        };
        assert(expand_link_inputs(a, arrays) + expand_link_inputs(b.drop_last(), arrays) + x
            =~= expand_link_inputs(a, arrays) + (expand_link_inputs(b.drop_last(), arrays) + x));
    }
}

/// One input token is the items of the array it names, or else itself; no
/// tokens give no inputs.
pub proof fn lemma_link_input_token(w: Seq<char>, arrays: Map<Seq<char>, Seq<Seq<char>>>)
    ensures
        expand_link_inputs(seq![w], arrays) == if arrays.contains_key(w) {
            arrays[w]
        } else {
            seq![w]
        },
        expand_link_inputs(seq![], arrays) == Seq::<Seq<char>>::empty(),
{
    assert(seq![w].drop_last() =~= Seq::<Seq<char>>::empty());
    assert(seq![w].last() == w);
    let x = if arrays.contains_key(w) {
        arrays[w]
    } else {
        seq![w]
    };
    let e = expand_link_inputs(Seq::<Seq<char>>::empty(), arrays);
    assert(e =~= Seq::<Seq<char>>::empty());
    assert(expand_link_inputs(seq![w], arrays) == expand_link_inputs(seq![w].drop_last(), arrays) + x);
    assert(e + x =~= x);
}

/// The expansion at token `k`: the inputs that the tokens before it give,
/// then those of token `k`, then those of the tokens after it.
pub proof fn lemma_link_input_at(raw: Seq<Seq<char>>, arrays: Map<Seq<char>, Seq<Seq<char>>>, k: int)
    requires
        0 <= k < raw.len(),
    ensures
        expand_link_inputs(raw, arrays) == expand_link_inputs(raw.take(k), arrays) + (if arrays.contains_key(
            raw[k],
        ) {
            arrays[raw[k]]
        } else {
            seq![raw[k]]
        }) + expand_link_inputs(raw.skip(k + 1), arrays),
{
    assert(raw =~= raw.take(k) + seq![raw[k]] + raw.skip(k + 1));
    lemma_link_inputs_concat(raw.take(k) + seq![raw[k]], raw.skip(k + 1), arrays);
    lemma_link_inputs_concat(raw.take(k), seq![raw[k]], arrays);
    lemma_link_input_token(raw[k], arrays);
}

/// Outputs of a rule and the array they are appended to, if any.
pub struct RuleTail {
    pub outputs: Seq<Seq<char>>,
    pub append: Option<WordAt>,
    pub pos: int,
}

/// `> outputs [| array] ;` of a `compile` or `link`.
pub open spec fn rule_tail_spec(
    ts: Seq<TokenView>,
    f: Seq<char>,
    p: int,
    no_output: Seq<char>,
) -> SpecResult<RuleTail> {
    match expect_spec(ts, f, p, TokenKind::Gt, "'>'"@) {
        Err(e) => Err(e),
        Ok(p4) => match word_list_spec(ts, f, p4, TokenKind::Pipe, TokenKind::Semi, seq![]) {
            Err(e) => Err(e),
            Ok((outputs, p5)) => if outputs.len() == 0 {
                Err(err_at(ts, f, p5, no_output))
            } else if tok(ts, p5).kind == TokenKind::Pipe {
                match expect_word_spec(ts, f, next(ts, p5), "array name"@) {
                    Err(e) => Err(e),
                    Ok((arr, p7)) => match expect_spec(ts, f, p7, TokenKind::Semi, "';'"@) {
                        Err(e) => Err(e),
                        Ok(p8) => Ok(RuleTail { outputs, append: Some(arr), pos: p8 }),
                    },
                }
            } else {
                match expect_spec(ts, f, p5, TokenKind::Semi, "';'"@) {
                    Err(e) => Err(e),
                    Ok(p8) => Ok(RuleTail { outputs, append: None, pos: p8 }),
                }
            },
        },
    }
}

/// The arrays after appending `outputs` to the array named in `append`.
pub open spec fn append_spec(
    f: Seq<char>,
    arrays: Map<Seq<char>, Seq<Seq<char>>>,
    append: Option<WordAt>,
    outputs: Seq<Seq<char>>,
) -> SpecResult<Map<Seq<char>, Seq<Seq<char>>>> {
    match append {
        None => Ok(arrays),
        Some(arr) => if arrays.contains_key(arr.text) {
            Ok(arrays.insert(arr.text, arrays[arr.text] + outputs))
        } else {
            Err(
                parse_error(
                    f,
                    arr.line as u32,
                    arr.col as u32,
                    "unknown array '"@ + arr.text + "'"@,
                ),
            )
        },
    }
}

/// `compile instruction inputs [@ order-only] > outputs [| array];`
pub open spec fn compile_spec(ts: Seq<TokenView>, f: Seq<char>, p: int, b: BuildView) -> SpecResult<
    Stmt,
> {
    let kw = tok(ts, p);
    match expect_word_spec(ts, f, next(ts, p), "instruction name"@) {
        Err(e) => Err(e),
        Ok((inst, p2)) => match word_list_spec(ts, f, p2, TokenKind::Gt, TokenKind::Semi, seq![]) {
            Err(e) => Err(e),
            Ok((raw, p3)) => if before_marker(raw).len() == 0 {
                Err(
                    parse_error(
                        f,
                        kw.line as u32,
                        kw.col as u32,
                        "compile requires at least one input"@,
                    ),
                )
            } else {
                match rule_tail_spec(ts, f, p3, "compile requires at least one output"@) {
                    Err(e) => Err(e),
                    Ok(tail) => match append_spec(f, b.arrays, tail.append, tail.outputs) {
                        Err(e) => Err(e),
                        Ok(arrays) => Ok(
                            plain(
                                tail.pos,
                                BuildView {
                                    arrays,
                                    statements: b.statements.push(
                                        StatementView::Compile {
                                            instruction: inst.text,
                                            inputs: before_marker(raw),
                                            order_only_inputs: after_marker(raw),
                                            outputs: tail.outputs,
                                            line: kw.line as u32,
                                        },
                                    ),
                                    ..b
                                },
                            ),
                        ),
                    },
                }
            },
        },
    }
}

/// `link inputs-or-arrays [@ order-only] > outputs [| array];`
pub open spec fn link_spec(ts: Seq<TokenView>, f: Seq<char>, p: int, b: BuildView) -> SpecResult<Stmt> {
    let kw = tok(ts, p);
    match word_list_spec(ts, f, next(ts, p), TokenKind::Gt, TokenKind::Semi, seq![]) {
        Err(e) => Err(e),
        Ok((raw, p3)) => if before_marker(raw).len() == 0 {
            Err(
                parse_error(
                    f,
                    kw.line as u32,
                    kw.col as u32,
                    "link requires at least one input or array"@,
                ),
            )
        } else {
            match rule_tail_spec(ts, f, p3, "link requires at least one output"@) {
                Err(e) => Err(e),
                Ok(tail) => {
                    let inputs = expand_link_inputs(before_marker(raw), b.arrays);
                    match append_spec(f, b.arrays, tail.append, tail.outputs) {
                        Err(e) => Err(e),
                        Ok(arrays) => Ok(
                            plain(
                                tail.pos,
                                BuildView {
                                    arrays,
                                    statements: b.statements.push(
                                        StatementView::Link {
                                            inputs,
                                            order_only_inputs: after_marker(raw),
                                            outputs: tail.outputs,
                                            line: kw.line as u32,
                                        },
                                    ),
                                    ..b
                                },
                            ),
                        ),
                    }
                },
            }
        },
    }
}

/// `default targets;`
pub open spec fn default_spec(ts: Seq<TokenView>, f: Seq<char>, p: int, b: BuildView) -> SpecResult<
    Stmt,
> {
    match word_list_spec(ts, f, next(ts, p), TokenKind::Semi, TokenKind::Semi, seq![]) {
        Err(e) => Err(e),
        Ok((names, p2)) => match expect_spec(ts, f, p2, TokenKind::Semi, "';'"@) {
            Err(e) => Err(e),
            Ok(p3) => if names.len() == 0 {
                Err(err_at(ts, f, p3, "default requires at least one target"@))
            } else {
                Ok(plain(p3, BuildView { defaults: b.defaults + names, ..b }))
            },
        },
    }
}

/// `include path;`
pub open spec fn include_spec(ts: Seq<TokenView>, f: Seq<char>, p: int, b: BuildView) -> SpecResult<
    Stmt,
> {
    let kw = tok(ts, p);
    match expect_word_spec(ts, f, next(ts, p), "include path"@) {
        Err(e) => Err(e),
        Ok((rel, p2)) => match expect_spec(ts, f, p2, TokenKind::Semi, "';'"@) {
            Err(e) => Err(e),
            Ok(p3) => Ok(
                Stmt {
                    pos: p3,
                    build: b,
                    nested: Some(IncludeAt { rel: rel.text, line: kw.line, col: kw.col }),
                },
            ),
        },
    }
}

/// One statement at `p`.
pub open spec fn stmt_spec(ts: Seq<TokenView>, f: Seq<char>, p: int, b: BuildView) -> SpecResult<Stmt> {
    let t = tok(ts, p);
    if t.kind != TokenKind::Word {
        Err(err_at(ts, f, p, "expected a statement"@))
    } else if t.text == "tool"@ {
        tool_spec(ts, f, p, b)
    } else if t.text == "flags"@ {
        list_decl_spec(ts, f, p, b, false)
    } else if t.text == "instruction"@ {
        instruction_spec(ts, f, p, b)
    } else if t.text == "array"@ {
        list_decl_spec(ts, f, p, b, true)
    } else if t.text == "compile"@ {
        compile_spec(ts, f, p, b)
    } else if t.text == "link"@ {
        link_spec(ts, f, p, b)
    } else if t.text == "var"@ {
        var_spec(ts, f, p, b)
    } else if t.text == "default"@ {
        default_spec(ts, f, p, b)
    } else if t.text == "include"@ {
        include_spec(ts, f, p, b)
    } else {
        Err(err_at(ts, f, p, "unknown statement '"@ + t.text + "'"@))
    }
}

/// Statements from `p` up to the end of input or just after an `include`.
pub open spec fn stmts_spec(ts: Seq<TokenView>, f: Seq<char>, p: int, b: BuildView) -> SpecResult<
    Stmt,
>
    decreases ts.len() - p,
{
    if p < 0 || p >= ts.len() || tok(ts, p).kind == TokenKind::Eof {
        Ok(plain(p, b))
    } else {
        match stmt_spec(ts, f, p, b) {
            Err(e) => Err(e),
            Ok(st) => if st.nested is Some || st.pos <= p || st.pos > ts.len() {
                Ok(st)
            } else {
                stmts_spec(ts, f, st.pos, st.build)
            },
        }
    }
}

pub open spec fn stmt_ok(r: SpecResult<Stmt>, pos: int, b: BuildView) -> bool {
    r is Ok && r->Ok_0.pos == pos && r->Ok_0.build == b && r->Ok_0.nested is None
}

// ---------------------------------------------------------------------------
// The parser.
/// A parser over the tokens of one source.
pub struct Parser {
    tokens: Vec<Token>,
    pos: usize,
    file: String,
}

fn expected_msg(what: &str) -> (r: String)
    ensures
        r@ == "expected "@ + what@,
{
    let mut m = String::new();
    push_str(&mut m, "expected ");
    push_str(&mut m, what);
    m
}

fn quoted_msg(before: &str, name: &str, after: &str) -> (r: String)
    ensures
        r@ == before@ + name@ + after@,
{
    let mut m = String::new();
    push_str(&mut m, before);
    push_str(&mut m, name);
    push_str(&mut m, after);
    m
}

fn redefined(what: &str, name: &str) -> (r: String)
    ensures
        r@ == redefined_msg(what@, name@),
{
    let mut m = String::new();
    push_str(&mut m, what);
    push_str(&mut m, " '");
    push_str(&mut m, name);
    push_str(&mut m, "' redefined");
    m
}

pub proof fn lemma_marker_index(raw: Seq<Seq<char>>, i: int)
    requires
        0 <= i <= raw.len(),
        forall|j: int| 0 <= j < i ==> raw[j] != seq!['@'],
        i == raw.len() || raw[i] == seq!['@'],
    ensures
        marker_index(raw) == i,
    decreases i,
{
    if i > 0 {
        lemma_marker_index(raw.drop_first(), i - 1);
    }
}

/// Splits rule inputs at the first `@` word.
fn split_marker(raw: Vec<String>) -> (r: (Vec<String>, Vec<String>))
    ensures
        views(r.0@) == before_marker(views(raw@)),
        views(r.1@) == after_marker(views(raw@)),
{
    let ghost rv = views(raw@);
    let mut i: usize = 0;
    proof {
        reveal_strlit("@");
    }
    while i < raw.len() && !str_eq(raw[i].as_str(), "@")
        invariant
            i <= raw@.len(),
            rv == views(raw@),
            "@"@ == seq!['@'],
            forall|j: int| 0 <= j < i ==> rv[j] != seq!['@'],
        decreases raw@.len() - i,
    {
        i = i + 1;
    }
    proof {
        lemma_marker_index(rv, i as int);
    }
    let mut before: Vec<String> = Vec::new();
    let mut after: Vec<String> = Vec::new();
    let mut k: usize = 0;
    while k < raw.len()
        invariant
            k <= raw@.len(),
            i <= raw@.len(),
            rv == views(raw@),
            marker_index(rv) == i,
            views(before@) == rv.take(if k < i {
                k as int
            } else {
                i as int
            }),
            views(after@) == if k <= i + 1 {
                Seq::<Seq<char>>::empty()
            } else {
                rv.subrange(i + 1, k as int)
            },
        decreases raw@.len() - k,
    {
        let c = raw[k].clone();
        let ghost b0 = before@;
        let ghost a0 = after@;
        if k < i {
            before.push(c);
            assert(views(before@) =~= views(b0).push(rv[k as int]));
            assert(rv.take(k + 1) =~= rv.take(k as int).push(rv[k as int]));
        } else if k > i {
            after.push(c);
            assert(views(after@) =~= views(a0).push(rv[k as int]));
            if k == i + 1 {
                assert(rv.subrange(i + 1, k + 1) =~= seq![rv[k as int]]);
            } else {
                assert(rv.subrange(i + 1, k + 1) =~= rv.subrange(i + 1, k as int).push(rv[k as int]));
            }
        }
        k = k + 1;
    }
    proof {
        if i < raw@.len() {
            if i + 1 == raw@.len() {
                assert(rv.skip(i + 1) =~= Seq::<Seq<char>>::empty());
            } else {
                assert(rv.skip(i + 1) =~= rv.subrange(i + 1, raw@.len() as int));
            }
        }
    }
    (before, after)
}

/// Link inputs with array names replaced by the arrays' items.
fn expand_link(raw: &Vec<String>, arrays: &FxHashMap<String, Vec<String>>) -> (r: Vec<String>)
    ensures
        views(r@) == expand_link_inputs(views(raw@), list_entries(*arrays)),
{
    let ghost rv = views(raw@);
    let mut out: Vec<String> = Vec::new();
    let mut i: usize = 0;
    while i < raw.len()
        invariant
            i <= raw@.len(),
            rv == views(raw@),
            views(out@) == expand_link_inputs(rv.take(i as int), list_entries(*arrays)),
        decreases raw@.len() - i,
    {
        assert(rv.take(i + 1).drop_last() =~= rv.take(i as int));
        match list_map_get(arrays, raw[i].as_str()) {
            Some(items) => {
                let more = clone_strings(items);
                let ghost o0 = views(out@);
                let mut o2 = out;
                let mut m2 = more;
                o2.append(&mut m2);
                out = o2;
                assert(views(out@) =~= o0 + views(more@));
            },
            None => {
                let ghost o0 = views(out@);
                out.push(raw[i].clone());
                assert(views(out@) =~= o0 + seq![rv[i as int]]);
            },
        }
        i = i + 1;
    }
    assert(rv.take(raw@.len() as int) =~= rv);
    out
}

impl Parser {
    pub closed spec fn ts(&self) -> Seq<TokenView> {
        token_views(self.tokens@)
    }

    pub closed spec fn f(&self) -> Seq<char> {
        self.file@
    }

    pub closed spec fn p(&self) -> int {
        self.pos as int
    }

    pub closed spec fn wf(&self) -> bool {
        &&& toks_ok(self.ts())
        &&& self.pos < self.tokens@.len()
    }

    /// Same tokens and file, a position no earlier.
    pub open spec fn moved_from(&self, old: &Parser) -> bool {
        &&& self.wf()
        &&& self.ts() == old.ts()
        &&& self.f() == old.f()
        &&& old.p() <= self.p()
    }

    pub fn new(tokens: Vec<Token>, file: &str) -> (r: Self)
        requires
            toks_ok(token_views(tokens@)),
        ensures
            r.wf(),
            r.ts() == token_views(tokens@),
            r.f() == file@,
            r.p() == 0,
    {
        Parser { tokens, pos: 0, file: file.to_owned() }
    }

    pub fn file(&self) -> (r: &String)
        ensures
            r@ == self.f(),
    {
        &self.file
    }

    fn cur(&self) -> (r: usize)
        requires
            self.wf(),
        ensures
            r < self.tokens@.len(),
            self.tokens@[r as int]@ == tok(self.ts(), self.p()),
    {
        if self.pos < self.tokens.len() - 1 {
            self.pos
        } else {
            self.tokens.len() - 1
        }
    }

    fn peek_kind(&self) -> (k: TokenKind)
        requires
            self.wf(),
        ensures
            k == tok(self.ts(), self.p()).kind,
    {
        self.tokens[self.cur()].kind
    }

    fn loc(&self) -> (r: (u32, u32))
        requires
            self.wf(),
        ensures
            r.0 as int == tok(self.ts(), self.p()).line,
            r.1 as int == tok(self.ts(), self.p()).col,
    {
        let t = &self.tokens[self.cur()];
        (t.line, t.col)
    }

    fn bump(&mut self)
        requires
            old(self).wf(),
        ensures
            final(self).moved_from(old(self)),
            final(self).p() == next(old(self).ts(), old(self).p()),
    {
        if self.pos < self.tokens.len() - 1 {
            self.pos = self.pos + 1;
        }
    }

    fn at(&self, kind: TokenKind) -> (r: bool)
        requires
            self.wf(),
        ensures
            r == (tok(self.ts(), self.p()).kind == kind),
    {
        self.peek_kind() == kind
    }

    fn eat(&mut self, kind: TokenKind) -> (r: bool)
        requires
            old(self).wf(),
        ensures
            final(self).moved_from(old(self)),
            r == (tok(old(self).ts(), old(self).p()).kind == kind),
            r ==> final(self).p() == next(old(self).ts(), old(self).p()),
            !r ==> final(self).p() == old(self).p(),
    {
        if self.at(kind) {
            self.bump();
            true
        } else {
            false
        }
    }

    fn err_here(&self, msg: String) -> (r: KageError)
        requires
            self.wf(),
        ensures
            r@ == err_at(self.ts(), self.f(), self.p(), msg@),
    {
        let (line, col) = self.loc();
        KageError::parse(self.file.as_str(), line, col, msg)
    }

    fn expect(&mut self, kind: TokenKind, what: &str) -> (r: Result<()>)
        requires
            old(self).wf(),
        ensures
            final(self).moved_from(old(self)),
            r is Ok ==> expect_spec(old(self).ts(), old(self).f(), old(self).p(), kind, what@)
                == Ok::<int, ErrorView>(final(self).p()),
            r matches Err(e) ==> expect_spec(old(self).ts(), old(self).f(), old(self).p(), kind, what@)
                == Err::<int, ErrorView>(e@),
    {
        if self.peek_kind() == kind {
            self.bump();
            Ok(())
        } else {
            Err(self.err_here(expected_msg(what)))
        }
    }

    fn expect_word(&mut self, what: &str) -> (r: Result<(String, u32, u32)>)
        requires
            old(self).wf(),
        ensures
            final(self).moved_from(old(self)),
            r matches Ok((text, line, col)) ==> expect_word_spec(
                old(self).ts(),
                old(self).f(),
                old(self).p(),
                what@,
            ) == Ok::<(WordAt, int), ErrorView>(
                (WordAt { text: text@, line: line as int, col: col as int }, final(self).p()),
            ),
            r matches Err(e) ==> expect_word_spec(old(self).ts(), old(self).f(), old(self).p(), what@)
                == Err::<(WordAt, int), ErrorView>(e@),
    {
        let i = self.cur();
        let k = self.tokens[i].kind;
        if k == TokenKind::Word || k == TokenKind::Str {
            let text = self.tokens[i].text.clone();
            let line = self.tokens[i].line;
            let col = self.tokens[i].col;
            self.bump();
            Ok((text, line, col))
        } else {
            Err(self.err_here(expected_msg(what)))
        }
    }

    fn parse_word_list_until(&mut self, s1: TokenKind, s2: TokenKind) -> (r: Result<Vec<String>>)
        requires
            old(self).wf(),
        ensures
            final(self).moved_from(old(self)),
            r matches Ok(words) ==> word_list_spec(
                old(self).ts(),
                old(self).f(),
                old(self).p(),
                s1,
                s2,
                seq![],
            ) == Ok::<(Seq<Seq<char>>, int), ErrorView>((views(words@), final(self).p())),
            r matches Err(e) ==> word_list_spec(
                old(self).ts(),
                old(self).f(),
                old(self).p(),
                s1,
                s2,
                seq![],
            ) == Err::<(Seq<Seq<char>>, int), ErrorView>(e@),
    {
        let mut words: Vec<String> = Vec::new();
        assert(views(words@) =~= Seq::<Seq<char>>::empty());
        loop
            invariant
                self.moved_from(old(self)),
                word_list_spec(self.ts(), self.f(), self.p(), s1, s2, views(words@))
                    == word_list_spec(old(self).ts(), old(self).f(), old(self).p(), s1, s2, seq![]),
            decreases self.ts().len() - self.p(),
        {
            let k = self.peek_kind();
            if k == s1 || k == s2 || k == TokenKind::Eof {
                return Ok(words);
            }
            let ghost p0 = self.p();
            let (w, _, _) = match self.expect_word("path or name") {
                Ok(t) => t,
                Err(e) => {
                    return Err(e);
                },
            };
            let ghost w0 = views(words@);
            words.push(w);
            assert(views(words@) =~= w0.push(w@));
        }
    }

    fn parse_comma_list(&mut self) -> (r: Result<Vec<String>>)
        requires
            old(self).wf(),
        ensures
            final(self).moved_from(old(self)),
            r matches Ok(items) ==> comma_list_spec(old(self).ts(), old(self).f(), old(self).p())
                == Ok::<(Seq<Seq<char>>, int), ErrorView>((views(items@), final(self).p())),
            r matches Err(e) ==> comma_list_spec(old(self).ts(), old(self).f(), old(self).p())
                == Err::<(Seq<Seq<char>>, int), ErrorView>(e@),
    {
        match self.expect(TokenKind::LBracket, "'['") {
            Ok(()) => {},
            Err(e) => {
                return Err(e);
            },
        }
        let mut items: Vec<String> = Vec::new();
        assert(views(items@) =~= Seq::<Seq<char>>::empty());
        if self.eat(TokenKind::RBracket) {
            return Ok(items);
        }
        loop
            invariant_except_break
                comma_list_spec(old(self).ts(), old(self).f(), old(self).p()) == comma_items(
                    self.ts(),
                    self.f(),
                    self.p(),
                    views(items@),
                ),
            invariant
                self.moved_from(old(self)),
            ensures
                comma_list_spec(old(self).ts(), old(self).f(), old(self).p()) == Ok::<
                    (Seq<Seq<char>>, int),
                    ErrorView,
                >((views(items@), self.p())),
            decreases self.ts().len() - self.p(),
        {
            let ghost p0 = self.p();
            let ghost acc0 = views(items@);
            let (w, _, _) = match self.expect_word("list item") {
                Ok(t) => t,
                Err(e) => {
                    return Err(e);
                },
            };
            let ghost q = self.p();
            items.push(w);
            assert(views(items@) =~= acc0.push(w@));
            if self.eat(TokenKind::Comma) {
                let ghost q2 = self.p();
                if self.eat(TokenKind::RBracket) {
                    break;
                }
                assert(q2 > p0);
                continue;
            }
            match self.expect(TokenKind::RBracket, "',' or ']'") {
                Ok(()) => {},
                Err(e) => {
                    return Err(e);
                },
            }
            break;
        }
        Ok(items)
    }
}

pub open spec fn opt_word(a: Option<(String, u32, u32)>) -> Option<WordAt> {
    match a {
        Some(t) => Some(WordAt { text: t.0@, line: t.1 as int, col: t.2 as int }),
        None => None,
    }
}

/// The build with only its arrays replaced.
pub open spec fn same_but_arrays(b2: BuildView, b: BuildView) -> bool {
    b2 == BuildView { arrays: b2.arrays, ..b }
}

impl Parser {
    fn parse_tool(&mut self, build: &mut BuildFile) -> (r: Result<()>)
        requires
            old(self).wf(),
        ensures
            final(self).moved_from(old(self)),
            next(old(self).ts(), old(self).p()) <= final(self).p(),
            r is Ok ==> stmt_ok(
                tool_spec(old(self).ts(), old(self).f(), old(self).p(), old(build)@),
                final(self).p(),
                final(build)@,
            ),
            r matches Err(e) ==> tool_spec(old(self).ts(), old(self).f(), old(self).p(), old(build)@)
                == Err::<Stmt, ErrorView>(e@),
    {
        self.bump();
        let (name, line, col) = match self.expect_word("tool name") {
            Ok(t) => t,
            Err(e) => {
                return Err(e);
            },
        };
        match self.expect(TokenKind::Equals, "'='") {
            Ok(()) => {},
            Err(e) => {
                return Err(e);
            },
        }
        let (value, _, _) = match self.expect_word("tool path") {
            Ok(t) => t,
            Err(e) => {
                return Err(e);
            },
        };
        match self.expect(TokenKind::Semi, "';'") {
            Ok(()) => {},
            Err(e) => {
                return Err(e);
            },
        }
        if text_map_get(&build.tools, name.as_str()).is_some() {
            return Err(KageError::parse(self.file.as_str(), line, col, redefined("tool", name.as_str())));
        }
        let ghost b0 = build@;
        text_map_insert(&mut build.tools, name, value);
        assert(build@ =~= with_tools(b0, b0.tools.insert(name@, value@)));
        Ok(())
    }

    fn parse_var(&mut self, build: &mut BuildFile) -> (r: Result<()>)
        requires
            old(self).wf(),
        ensures
            final(self).moved_from(old(self)),
            next(old(self).ts(), old(self).p()) <= final(self).p(),
            r is Ok ==> stmt_ok(
                var_spec(old(self).ts(), old(self).f(), old(self).p(), old(build)@),
                final(self).p(),
                final(build)@,
            ),
            r matches Err(e) ==> var_spec(old(self).ts(), old(self).f(), old(self).p(), old(build)@)
                == Err::<Stmt, ErrorView>(e@),
    {
        self.bump();
        let (name, line, col) = match self.expect_word("variable name") {
            Ok(t) => t,
            Err(e) => {
                return Err(e);
            },
        };
        match self.expect(TokenKind::Equals, "'='") {
            Ok(()) => {},
            Err(e) => {
                return Err(e);
            },
        }
        let (value, _, _) = match self.expect_word("variable value") {
            Ok(t) => t,
            Err(e) => {
                return Err(e);
            },
        };
        match self.expect(TokenKind::Semi, "';'") {
            Ok(()) => {},
            Err(e) => {
                return Err(e);
            },
        }
        if text_map_get(&build.vars, name.as_str()).is_some() {
            return Err(
                KageError::parse(self.file.as_str(), line, col, redefined("variable", name.as_str())),
            );
        }
        let ghost b0 = build@;
        text_map_insert(&mut build.vars, name, value);
        assert(build@ =~= with_vars(b0, b0.vars.insert(name@, value@)));
        Ok(())
    }

    fn parse_list_decl(&mut self, build: &mut BuildFile, is_array: bool) -> (r: Result<()>)
        requires
            old(self).wf(),
        ensures
            final(self).moved_from(old(self)),
            next(old(self).ts(), old(self).p()) <= final(self).p(),
            r is Ok ==> stmt_ok(
                list_decl_spec(old(self).ts(), old(self).f(), old(self).p(), old(build)@, is_array),
                final(self).p(),
                final(build)@,
            ),
            r matches Err(e) ==> list_decl_spec(
                old(self).ts(),
                old(self).f(),
                old(self).p(),
                old(build)@,
                is_array,
            ) == Err::<Stmt, ErrorView>(e@),
    {
        self.bump();
        let what = if is_array {
            "array name"
        } else {
            "flags name"
        };
        let (name, line, col) = match self.expect_word(what) {
            Ok(t) => t,
            Err(e) => {
                return Err(e);
            },
        };
        match self.expect(TokenKind::Equals, "'='") {
            Ok(()) => {},
            Err(e) => {
                return Err(e);
            },
        }
        let items = match self.parse_comma_list() {
            Ok(t) => t,
            Err(e) => {
                return Err(e);
            },
        };
        match self.expect(TokenKind::Semi, "';'") {
            Ok(()) => {},
            Err(e) => {
                return Err(e);
            },
        }
        let ghost b0 = build@;
        if is_array {
            if list_map_get(&build.arrays, name.as_str()).is_some() {
                return Err(
                    KageError::parse(self.file.as_str(), line, col, redefined("array", name.as_str())),
                );
            }
            list_map_insert(&mut build.arrays, name, items);
            assert(build@ =~= with_arrays(b0, b0.arrays.insert(name@, views(items@))));
        } else {
            if list_map_get(&build.flags, name.as_str()).is_some() {
                return Err(
                    KageError::parse(self.file.as_str(), line, col, redefined("flags", name.as_str())),
                );
            }
            list_map_insert(&mut build.flags, name, items);
            assert(build@ =~= with_flags(b0, b0.flags.insert(name@, views(items@))));
        }
        Ok(())
    }

    fn apply_field(&self, field: &String, fl: u32, fc: u32, value: String, inst: &mut Instruction) -> (r:
        Result<()>)
        requires
            self.wf(),
        ensures
            r is Ok ==> apply_field(
                self.f(),
                WordAt { text: field@, line: fl as int, col: fc as int },
                value@,
                old(inst)@,
            ) == Ok::<InstructionView, ErrorView>(final(inst)@),
            r matches Err(e) ==> apply_field(
                self.f(),
                WordAt { text: field@, line: fl as int, col: fc as int },
                value@,
                old(inst)@,
            ) == Err::<InstructionView, ErrorView>(e@),
    {
        if str_eq(field.as_str(), "command") {
            inst.command = value;
        } else if str_eq(field.as_str(), "description") {
            inst.description = Some(value);
        } else if str_eq(field.as_str(), "depfile") {
            inst.depfile = Some(value);
        } else if str_eq(field.as_str(), "depformat") {
            if str_eq(value.as_str(), "gcc") {
                inst.depformat = DepFormat::Gcc;
            } else if str_eq(value.as_str(), "none") {
                inst.depformat = DepFormat::NoDeps;
            } else {
                return Err(
                    KageError::parse(
                        self.file.as_str(),
                        fl,
                        fc,
                        quoted_msg("unknown depformat '", value.as_str(), "' (use gcc or none)"),
                    ),
                );
            }
        } else if str_eq(field.as_str(), "restat") {
            let v = value.as_str();
            if str_eq(v, "true") || str_eq(v, "yes") || str_eq(v, "1") {
                inst.restat = true;
            } else if str_eq(v, "false") || str_eq(v, "no") || str_eq(v, "0") {
                inst.restat = false;
            } else {
                return Err(
                    KageError::parse(
                        self.file.as_str(),
                        fl,
                        fc,
                        quoted_msg("expected true or false, got '", v, "'"),
                    ),
                );
            }
        } else {
            return Err(
                KageError::parse(
                    self.file.as_str(),
                    fl,
                    fc,
                    quoted_msg("unknown instruction field '", field.as_str(), "'"),
                ),
            );
        }
        Ok(())
    }

    fn parse_instruction(&mut self, build: &mut BuildFile) -> (r: Result<()>)
        requires
            old(self).wf(),
            tok(old(self).ts(), old(self).p()).kind == TokenKind::Word,
        ensures
            final(self).moved_from(old(self)),
            next(old(self).ts(), old(self).p()) <= final(self).p(),
            r is Ok ==> stmt_ok(
                instruction_spec(old(self).ts(), old(self).f(), old(self).p(), old(build)@),
                final(self).p(),
                final(build)@,
            ),
            r matches Err(e) ==> instruction_spec(
                old(self).ts(),
                old(self).f(),
                old(self).p(),
                old(build)@,
            ) == Err::<Stmt, ErrorView>(e@),
    {
        self.bump();
        let ghost p1 = self.p();
        let (name, line, col) = match self.expect_word("instruction name") {
            Ok(t) => t,
            Err(e) => {
                return Err(e);
            },
        };
        let ghost p2 = self.p();
        match self.expect(TokenKind::LBrace, "'{'") {
            Ok(()) => {},
            Err(e) => {
                return Err(e);
            },
        }
        let mut inst = Instruction {
            name: name.clone(),
            command: String::new(),
            description: None,
            depformat: DepFormat::NoDeps,
            depfile: None,
            restat: false,
            line,
        };
        assert(inst@ =~= empty_instruction(name@, line as int));
        let ghost p3 = self.p();
        while !self.at(TokenKind::RBrace) && !self.at(TokenKind::Eof)
            invariant
                self.moved_from(old(self)),
                p3 <= self.p(),
                p1 == next(old(self).ts(), old(self).p()),
                expect_word_spec(self.ts(), self.f(), p1, "instruction name"@) == Ok::<
                    (WordAt, int),
                    ErrorView,
                >((WordAt { text: name@, line: line as int, col: col as int }, p2)),
                expect_spec(self.ts(), self.f(), p2, TokenKind::LBrace, "'{'"@) == Ok::<
                    int,
                    ErrorView,
                >(p3),
                fields_spec(self.ts(), self.f(), p3, empty_instruction(name@, line as int))
                    == fields_spec(self.ts(), self.f(), self.p(), inst@),
            decreases self.ts().len() - self.p(),
        {
            let ghost q0 = self.p();
            let (field, fl, fc) = match self.expect_word("field name") {
                Ok(t) => t,
                Err(e) => {
                    return Err(e);
                },
            };
            match self.expect(TokenKind::Colon, "':'") {
                Ok(()) => {},
                Err(e) => {
                    return Err(e);
                },
            }
            let (value, _, _) = match self.expect_word("field value") {
                Ok(t) => t,
                Err(e) => {
                    return Err(e);
                },
            };
            match self.expect(TokenKind::Semi, "';'") {
                Ok(()) => {},
                Err(e) => {
                    return Err(e);
                },
            }
            match self.apply_field(&field, fl, fc, value, &mut inst) {
                Ok(()) => {},
                Err(e) => {
                    return Err(e);
                },
            }
            assert(self.p() > q0);
        }
        match self.expect(TokenKind::RBrace, "'}'") {
            Ok(()) => {},
            Err(e) => {
                return Err(e);
            },
        }
        if inst.command.as_str().is_empty() {
            return Err(
                KageError::parse(
                    self.file.as_str(),
                    line,
                    col,
                    quoted_msg("instruction '", name.as_str(), "' is missing a command"),
                ),
            );
        }
        if instruction_map_get(&build.instructions, name.as_str()).is_some() {
            return Err(
                KageError::parse(
                    self.file.as_str(),
                    line,
                    col,
                    redefined("instruction", name.as_str()),
                ),
            );
        }
        let ghost b0 = build@;
        let ghost iv = inst@;
        instruction_map_insert(&mut build.instructions, name, inst);
        assert(build@ =~= BuildView { instructions: b0.instructions.insert(name@, iv), ..b0 });
        Ok(())
    }

    fn parse_rule_tail(&mut self, no_output: &str) -> (r: Result<(Vec<String>, Option<(String, u32, u32)>)>)
        requires
            old(self).wf(),
        ensures
            final(self).moved_from(old(self)),
            r matches Ok(t) ==> rule_tail_spec(old(self).ts(), old(self).f(), old(self).p(), no_output@)
                == Ok::<RuleTail, ErrorView>(
                RuleTail { outputs: views(t.0@), append: opt_word(t.1), pos: final(self).p() },
            ),
            r matches Err(e) ==> rule_tail_spec(
                old(self).ts(),
                old(self).f(),
                old(self).p(),
                no_output@,
            ) == Err::<RuleTail, ErrorView>(e@),
    {
        match self.expect(TokenKind::Gt, "'>'") {
            Ok(()) => {},
            Err(e) => {
                return Err(e);
            },
        }
        let outputs = match self.parse_word_list_until(TokenKind::Pipe, TokenKind::Semi) {
            Ok(t) => t,
            Err(e) => {
                return Err(e);
            },
        };
        if outputs.len() == 0 {
            return Err(self.err_here(no_output.to_owned()));
        }
        let append = if self.eat(TokenKind::Pipe) {
            match self.expect_word("array name") {
                Ok(t) => Some(t),
                Err(e) => {
                    return Err(e);
                },
            }
        } else {
            None
        };
        match self.expect(TokenKind::Semi, "';'") {
            Ok(()) => {},
            Err(e) => {
                return Err(e);
            },
        }
        Ok((outputs, append))
    }

    fn append_outputs(
        &self,
        build: &mut BuildFile,
        append: Option<(String, u32, u32)>,
        outputs: &Vec<String>,
    ) -> (r: Result<()>)
        requires
            self.wf(),
        ensures
            r is Ok ==> append_spec(self.f(), old(build)@.arrays, opt_word(append), views(outputs@))
                == Ok::<Map<Seq<char>, Seq<Seq<char>>>, ErrorView>(final(build)@.arrays),
            r matches Err(e) ==> append_spec(
                self.f(),
                old(build)@.arrays,
                opt_word(append),
                views(outputs@),
            ) == Err::<Map<Seq<char>, Seq<Seq<char>>>, ErrorView>(e@),
            same_but_arrays(final(build)@, old(build)@),
    {
        let ghost b0 = build@;
        match append {
            None => {
                assert(build@ =~= BuildView { arrays: build@.arrays, ..b0 });
                Ok(())
            },
            Some((arr, line, col)) => {
                match list_map_remove(&mut build.arrays, arr.as_str()) {
                    None => {
                        assert(build@.arrays =~= b0.arrays);
                        assert(build@ =~= BuildView { arrays: build@.arrays, ..b0 });
                        Err(
                            KageError::parse(
                                self.file.as_str(),
                                line,
                                col,
                                quoted_msg("unknown array '", arr.as_str(), "'"),
                            ),
                        )
                    },
                    Some(list) => {
                        let more = clone_strings(outputs);
                        let ghost l0 = views(list@);
                        let mut l2 = list;
                        let mut m2 = more;
                        l2.append(&mut m2);
                        assert(views(l2@) =~= l0 + views(outputs@));
                        list_map_insert(&mut build.arrays, arr, l2);
                        assert(build@.arrays =~= b0.arrays.insert(arr@, b0.arrays[arr@] + views(
                            outputs@,
                        )));
                        assert(build@ =~= BuildView { arrays: build@.arrays, ..b0 });
                        Ok(())
                    },
                }
            },
        }
    }

    fn parse_compile(&mut self, build: &mut BuildFile) -> (r: Result<()>)
        requires
            old(self).wf(),
        ensures
            final(self).moved_from(old(self)),
            next(old(self).ts(), old(self).p()) <= final(self).p(),
            r is Ok ==> stmt_ok(
                compile_spec(old(self).ts(), old(self).f(), old(self).p(), old(build)@),
                final(self).p(),
                final(build)@,
            ),
            r matches Err(e) ==> compile_spec(old(self).ts(), old(self).f(), old(self).p(), old(build)@)
                == Err::<Stmt, ErrorView>(e@),
    {
        let (kw_line, kw_col) = self.loc();
        self.bump();
        let (instruction, _, _) = match self.expect_word("instruction name") {
            Ok(t) => t,
            Err(e) => {
                return Err(e);
            },
        };
        let raw = match self.parse_word_list_until(TokenKind::Gt, TokenKind::Semi) {
            Ok(t) => t,
            Err(e) => {
                return Err(e);
            },
        };
        let (inputs, order_only_inputs) = split_marker(raw);
        if inputs.len() == 0 {
            return Err(
                KageError::parse(
                    self.file.as_str(),
                    kw_line,
                    kw_col,
                    "compile requires at least one input".to_owned(),
                ),
            );
        }
        let (outputs, append) = match self.parse_rule_tail("compile requires at least one output") {
            Ok(t) => t,
            Err(e) => {
                return Err(e);
            },
        };
        let ghost b0 = build@;
        match self.append_outputs(build, append, &outputs) {
            Ok(()) => {},
            Err(e) => {
                return Err(e);
            },
        }
        let ghost b1 = build@;
        let st = Statement::Compile {
            instruction,
            inputs,
            order_only_inputs,
            outputs,
            line: kw_line,
        };
        let ghost sv = st@;
        build.statements.push(st);
        assert(statement_views(build.statements@) =~= b1.statements.push(sv));
        assert(build@ =~= BuildView { statements: b0.statements.push(sv), arrays: b1.arrays, ..b0 });
        Ok(())
    }

    fn parse_link(&mut self, build: &mut BuildFile) -> (r: Result<()>)
        requires
            old(self).wf(),
        ensures
            final(self).moved_from(old(self)),
            next(old(self).ts(), old(self).p()) <= final(self).p(),
            r is Ok ==> stmt_ok(
                link_spec(old(self).ts(), old(self).f(), old(self).p(), old(build)@),
                final(self).p(),
                final(build)@,
            ),
            r matches Err(e) ==> link_spec(old(self).ts(), old(self).f(), old(self).p(), old(build)@)
                == Err::<Stmt, ErrorView>(e@),
    {
        let (kw_line, kw_col) = self.loc();
        self.bump();
        let raw = match self.parse_word_list_until(TokenKind::Gt, TokenKind::Semi) {
            Ok(t) => t,
            Err(e) => {
                return Err(e);
            },
        };
        let (raw_inputs, order_only_inputs) = split_marker(raw);
        if raw_inputs.len() == 0 {
            return Err(
                KageError::parse(
                    self.file.as_str(),
                    kw_line,
                    kw_col,
                    "link requires at least one input or array".to_owned(),
                ),
            );
        }
        let (outputs, append) = match self.parse_rule_tail("link requires at least one output") {
            Ok(t) => t,
            Err(e) => {
                return Err(e);
            },
        };
        let inputs = expand_link(&raw_inputs, &build.arrays);
        let ghost b0 = build@;
        match self.append_outputs(build, append, &outputs) {
            Ok(()) => {},
            Err(e) => {
                return Err(e);
            },
        }
        let ghost b1 = build@;
        let st = Statement::Link { inputs, order_only_inputs, outputs, line: kw_line };
        let ghost sv = st@;
        build.statements.push(st);
        assert(statement_views(build.statements@) =~= b1.statements.push(sv));
        assert(build@ =~= BuildView { statements: b0.statements.push(sv), arrays: b1.arrays, ..b0 });
        Ok(())
    }

    fn parse_default(&mut self, build: &mut BuildFile) -> (r: Result<()>)
        requires
            old(self).wf(),
        ensures
            final(self).moved_from(old(self)),
            next(old(self).ts(), old(self).p()) <= final(self).p(),
            r is Ok ==> stmt_ok(
                default_spec(old(self).ts(), old(self).f(), old(self).p(), old(build)@),
                final(self).p(),
                final(build)@,
            ),
            r matches Err(e) ==> default_spec(old(self).ts(), old(self).f(), old(self).p(), old(build)@)
                == Err::<Stmt, ErrorView>(e@),
    {
        self.bump();
        let names = match self.parse_word_list_until(TokenKind::Semi, TokenKind::Semi) {
            Ok(t) => t,
            Err(e) => {
                return Err(e);
            },
        };
        match self.expect(TokenKind::Semi, "';'") {
            Ok(()) => {},
            Err(e) => {
                return Err(e);
            },
        }
        if names.len() == 0 {
            return Err(self.err_here("default requires at least one target".to_owned()));
        }
        let ghost b0 = build@;
        let ghost nv = views(names@);
        let mut names = names;
        build.defaults.append(&mut names);
        assert(build@ =~= BuildView { defaults: b0.defaults + nv, ..b0 }) by {
            assert(views(build.defaults@) =~= b0.defaults + nv);
        }
        Ok(())
    }
}

pub open spec fn opt_include(a: Option<(String, u32, u32)>) -> Option<IncludeAt> {
    match a {
        Some(t) => Some(IncludeAt { rel: t.0@, line: t.1 as int, col: t.2 as int }),
        None => None,
    }
}

/// `r` is what `spec` describes, with `pos`, `b` and `inc` after the statement.
pub open spec fn stmt_matches(
    spec: SpecResult<Stmt>,
    r: Result<Option<(String, u32, u32)>>,
    pos: int,
    b: BuildView,
) -> bool {
    match r {
        Ok(inc) => spec is Ok && spec->Ok_0.pos == pos && spec->Ok_0.build == b && spec->Ok_0.nested
            == opt_include(inc),
        Err(e) => spec == Err::<Stmt, ErrorView>(e@),
    }
}

impl Parser {
    fn parse_include(&mut self) -> (r: Result<(String, u32, u32)>)
        requires
            old(self).wf(),
        ensures
            final(self).moved_from(old(self)),
            next(old(self).ts(), old(self).p()) <= final(self).p(),
            ({
                let spec = include_spec(
                    old(self).ts(),
                    old(self).f(),
                    old(self).p(),
                    arbitrary(),
                );
                &&& r matches Ok(t) ==> spec is Ok && spec->Ok_0.pos == final(self).p()
                    && spec->Ok_0.nested == opt_include(Some(t))
                &&& r matches Err(e) ==> spec == Err::<Stmt, ErrorView>(e@)
            }),
    {
        let (kw_line, kw_col) = self.loc();
        self.bump();
        let (rel, _, _) = match self.expect_word("include path") {
            Ok(t) => t,
            Err(e) => {
                return Err(e);
            },
        };
        match self.expect(TokenKind::Semi, "';'") {
            Ok(()) => {},
            Err(e) => {
                return Err(e);
            },
        }
        Ok((rel, kw_line, kw_col))
    }

    /// One statement; for an `include`, the path and where the keyword stands.
    fn parse_stmt(&mut self, build: &mut BuildFile) -> (r: Result<Option<(String, u32, u32)>>)
        requires
            old(self).wf(),
        ensures
            final(self).moved_from(old(self)),
            stmt_matches(
                stmt_spec(old(self).ts(), old(self).f(), old(self).p(), old(build)@),
                r,
                final(self).p(),
                final(build)@,
            ),
            r is Ok ==> old(self).p() < final(self).p(),
    {
        let i = self.cur();
        if self.tokens[i].kind != TokenKind::Word {
            return Err(self.err_here("expected a statement".to_owned()));
        }
        let kw = self.tokens[i].text.as_str();
        let ghost p0 = self.p();
        assert(next(self.ts(), p0) == p0 + 1);
        if str_eq(kw, "tool") {
            match self.parse_tool(build) {
                Ok(()) => Ok(None),
                Err(e) => Err(e),
            }
        } else if str_eq(kw, "flags") {
            match self.parse_list_decl(build, false) {
                Ok(()) => Ok(None),
                Err(e) => Err(e),
            }
        } else if str_eq(kw, "instruction") {
            match self.parse_instruction(build) {
                Ok(()) => Ok(None),
                Err(e) => Err(e),
            }
        } else if str_eq(kw, "array") {
            match self.parse_list_decl(build, true) {
                Ok(()) => Ok(None),
                Err(e) => Err(e),
            }
        } else if str_eq(kw, "compile") {
            match self.parse_compile(build) {
                Ok(()) => Ok(None),
                Err(e) => Err(e),
            }
        } else if str_eq(kw, "link") {
            match self.parse_link(build) {
                Ok(()) => Ok(None),
                Err(e) => Err(e),
            }
        } else if str_eq(kw, "var") {
            match self.parse_var(build) {
                Ok(()) => Ok(None),
                Err(e) => Err(e),
            }
        } else if str_eq(kw, "default") {
            match self.parse_default(build) {
                Ok(()) => Ok(None),
                Err(e) => Err(e),
            }
        } else if str_eq(kw, "include") {
            match self.parse_include() {
                Ok(t) => Ok(Some(t)),
                Err(e) => Err(e),
            }
        } else {
            let msg = quoted_msg("unknown statement '", kw, "'");
            Err(self.err_here(msg))
        }
    }

    /// Statements up to the end of input, or up to and including an
    /// `include`, whose path and location it returns.
    pub fn parse_until_stop(&mut self, build: &mut BuildFile) -> (r: Result<
        Option<(String, u32, u32)>,
    >)
        requires
            old(self).wf(),
        ensures
            final(self).moved_from(old(self)),
            stmt_matches(
                stmts_spec(old(self).ts(), old(self).f(), old(self).p(), old(build)@),
                r,
                final(self).p(),
                final(build)@,
            ),
    {
        loop
            invariant
                self.moved_from(old(self)),
                stmts_spec(old(self).ts(), old(self).f(), old(self).p(), old(build)@) == stmts_spec(
                    self.ts(),
                    self.f(),
                    self.p(),
                    build@,
                ),
            decreases self.ts().len() - self.p(),
        {
            if self.at(TokenKind::Eof) {
                return Ok(None);
            }
            match self.parse_stmt(build) {
                Err(e) => {
                    return Err(e);
                },
                Ok(Some(t)) => {
                    return Ok(Some(t));
                },
                Ok(None) => {},
            }
        }
    }
}

/// What a parse step stopped at.
pub enum ParseStep {
    /// Every source has been read to its end.
    Done,
    /// An `include` of `rel`, written in the source named `from`.
    Nested { rel: String, from: String },
}

/// One source being read: its tokens, name and position.
pub struct FrameView {
    pub ts: Seq<TokenView>,
    pub f: Seq<char>,
    pub p: int,
}

pub open spec fn frame_views(fs: Seq<Parser>) -> Seq<FrameView> {
    fs.map_values(|x: Parser| FrameView { ts: x.ts(), f: x.f(), p: x.p() })
}

/// An `include` and the name of the source that holds it.
pub struct NestedAt {
    pub at: IncludeAt,
    pub from: Seq<char>,
}

/// Where an `include` being answered stands.
pub struct PendingView {
    pub file: Seq<char>,
    pub line: u32,
    pub col: u32,
}

/// Where a parse step stops: an `include` with the name of the source that
/// holds it, the sources still open, and the build so far.
pub struct StepView {
    pub nested: Option<NestedAt>,
    pub frames: Seq<FrameView>,
    pub build: BuildView,
}

/// Reads the innermost open source up to its end or an `include`; a source
/// that ends is closed and reading goes on in the one that holds it.
pub open spec fn step_spec(frames: Seq<FrameView>, b: BuildView) -> SpecResult<StepView>
    decreases frames.len(),
{
    if frames.len() == 0 {
        Ok(StepView { nested: None, frames, build: b })
    } else {
        let top = frames.last();
        match stmts_spec(top.ts, top.f, top.p, b) {
            Err(e) => Err(e),
            Ok(st) => if st.nested is Some {
                Ok(
                    StepView {
                        nested: Some(NestedAt { at: st.nested->0, from: top.f }),
                        frames: frames.drop_last().push(FrameView { p: st.pos, ..top }),
                        build: st.build,
                    },
                )
            } else {
                step_spec(frames.drop_last(), st.build)
            },
        }
    }
}

pub open spec fn empty_build(file: Seq<char>) -> BuildView {
    BuildView {
        file,
        tools: Map::empty(),
        flags: Map::empty(),
        vars: Map::empty(),
        instructions: Map::empty(),
        arrays: Map::empty(),
        statements: seq![],
        defaults: seq![],
    }
}

impl BuildFile {
    /// A build description with nothing in it yet.
    pub fn new(file: &str) -> (r: Self)
        ensures
            r@ == empty_build(file@),
    {
        let r = BuildFile {
            file: file.to_owned(),
            tools: text_map_new(),
            flags: list_map_new(),
            vars: text_map_new(),
            instructions: instruction_map_new(),
            arrays: list_map_new(),
            statements: Vec::new(),
            defaults: Vec::new(),
        };
        assert(r@ =~= empty_build(file@));
        r
    }
}

/// A parse of a build description and the files it includes.  The caller
/// reads the files: each step runs until an `include` or the end.
pub struct ParseSession {
    frames: Vec<Parser>,
    build: BuildFile,
    included: Vec<String>,
    pending: Option<(String, u32, u32)>,
}

impl ParseSession {
    pub closed spec fn frames(&self) -> Seq<FrameView> {
        frame_views(self.frames@)
    }

    pub closed spec fn build_view(&self) -> BuildView {
        self.build@
    }

    /// Canonical paths of the files read so far.
    pub closed spec fn included(&self) -> Seq<Seq<char>> {
        views(self.included@)
    }

    /// The `include` being answered: source name, line and column.
    pub closed spec fn pending(&self) -> Option<PendingView> {
        match self.pending {
            Some(t) => Some(PendingView { file: t.0@, line: t.1, col: t.2 }),
            None => None,
        }
    }

    pub closed spec fn wf(&self) -> bool {
        forall|i: int| 0 <= i < self.frames@.len() ==> (#[trigger] self.frames@[i]).wf()
    }

    /// A session for the build file `file`; `root` is the canonical path of
    /// that file when it is known.
    pub fn new(file: &str, root: Option<String>) -> (r: Self)
        ensures
            r.wf(),
            r.frames().len() == 0,
            r.build_view() == empty_build(file@),
            r.included() == match root {
                Some(c) => seq![c@],
                None => Seq::<Seq<char>>::empty(),
            },
            r.pending() is None,
    {
        let mut included: Vec<String> = Vec::new();
        match root {
            Some(c) => {
                included.push(c);
            },
            None => {},
        }
        let r = ParseSession { frames: Vec::new(), build: BuildFile::new(file), included, pending: None };
        assert(r.frames() =~= Seq::<FrameView>::empty());
        assert(r.included() =~= match root {
            Some(c) => seq![c@],
            None => Seq::<Seq<char>>::empty(),
        });
        r
    }

    /// Opens a source: splits it into tokens and reads it next.
    pub fn push_source(&mut self, src: &str, file: &str) -> (r: Result<()>)
        requires
            old(self).wf(),
            src.spec_bytes().len() < u32::MAX,
        ensures
            final(self).wf(),
            final(self).build_view() == old(self).build_view(),
            final(self).included() == old(self).included(),
            final(self).pending() == old(self).pending(),
            r is Ok ==> lex(src.spec_bytes(), file@) is Ok && final(self).frames() == old(
                self,
            ).frames().push(FrameView { ts: lex(src.spec_bytes(), file@)->Ok_0, f: file@, p: 0 }),
            r matches Err(e) ==> lex(src.spec_bytes(), file@) == Err::<Seq<TokenView>, ErrorView>(e@)
                && final(self).frames() == old(self).frames(),
    {
        let tokens = match tokenize(src, file) {
            Ok(t) => t,
            Err(e) => {
                return Err(e);
            },
        };
        proof {
            lemma_lex_ends(src.spec_bytes(), file@);
        }
        let parser = Parser::new(tokens, file);
        let ghost fv = FrameView { ts: parser.ts(), f: parser.f(), p: parser.p() };
        let ghost old_frames = self.frames@;
        self.frames.push(parser);
        assert(frame_views(self.frames@) =~= frame_views(old_frames).push(fv));
        Ok(())
    }

    /// Checks an `include` of the file with canonical path `canon`, shown as
    /// `shown`: a file already read is an include cycle.
    pub fn enter_include(&mut self, canon: &str, shown: &str) -> (r: Result<()>)
        requires
            old(self).pending() is Some,
        ensures
            final(self).frames() == old(self).frames(),
            final(self).build_view() == old(self).build_view(),
            final(self).pending() == old(self).pending(),
            final(self).wf() == old(self).wf(),
            old(self).included().contains(canon@) ==> (r matches Err(e) && e@ == parse_error(
                old(self).pending()->0.file,
                old(self).pending()->0.line,
                old(self).pending()->0.col,
                "include cycle involving '"@ + shown@ + "'"@,
            )) && final(self).included() == old(self).included(),
            !old(self).included().contains(canon@) ==> r is Ok && final(self).included() == old(
                self,
            ).included().push(canon@),
    {
        let ghost iv = self.included();
        let mut i: usize = 0;
        while i < self.included.len()
            invariant
                i <= self.included@.len(),
                iv == views(self.included@),
                forall|j: int| 0 <= j < i ==> iv[j] != canon@,
                self.pending() == old(self).pending(),
                old(self).pending() is Some,
            decreases self.included@.len() - i,
        {
            if str_eq(self.included[i].as_str(), canon) {
                assert(iv[i as int] == canon@);
                assert(iv.contains(canon@));
                let (file, line, col) = match &self.pending {
                    Some(t) => (t.0.as_str(), t.1, t.2),
                    None => {
                        return Ok(());
                    },
                };
                return Err(
                    KageError::parse(
                        file,
                        line,
                        col,
                        quoted_msg("include cycle involving '", shown, "'"),
                    ),
                );
            }
            i = i + 1;
        }
        self.included.push(canon.to_owned());
        assert(views(self.included@) =~= iv.push(canon@));
        Ok(())
    }

    /// Reads on until an `include` or the end of every open source.
    pub fn step(&mut self) -> (r: Result<ParseStep>)
        requires
            old(self).wf(),
        ensures
            final(self).wf(),
            final(self).included() == old(self).included(),
            ({
                let spec = step_spec(old(self).frames(), old(self).build_view());
                &&& r matches Err(e) ==> spec == Err::<StepView, ErrorView>(e@)
                &&& r matches Ok(ParseStep::Done) ==> spec is Ok && spec->Ok_0.nested is None
                    && final(self).build_view() == spec->Ok_0.build && final(self).frames().len()
                    == 0
                &&& r matches Ok(ParseStep::Nested { rel, from }) ==> spec is Ok
                    && spec->Ok_0.nested is Some && spec->Ok_0.nested->0.at.rel == rel@
                    && spec->Ok_0.nested->0.from == from@ && final(self).frames()
                    == spec->Ok_0.frames && final(self).build_view() == spec->Ok_0.build
                    && final(self).pending() == Some(
                    PendingView {
                        file: from@,
                        line: spec->Ok_0.nested->0.at.line as u32,
                        col: spec->Ok_0.nested->0.at.col as u32,
                    },
                )
            }),
    {
        loop
            invariant
                self.wf(),
                self.included() == old(self).included(),
                step_spec(old(self).frames(), old(self).build_view()) == step_spec(
                    self.frames(),
                    self.build_view(),
                ),
            decreases self.frames@.len(),
        {
            let ghost fs = self.frames();
            let mut top = match self.frames.pop() {
                None => {
                    return Ok(ParseStep::Done);
                },
                Some(t) => t,
            };
            assert(frame_views(self.frames@) =~= fs.drop_last());
            assert(self.frames.len() + 1 == fs.len());
            match top.parse_until_stop(&mut self.build) {
                Err(e) => {
                    return Err(e);
                },
                Ok(None) => {},
                Ok(Some((rel, line, col))) => {
                    let from = top.file().clone();
                    self.pending = Some((top.file().clone(), line, col));
                    let ghost tv = FrameView { ts: top.ts(), f: top.f(), p: top.p() };
                    let ghost before = self.frames@;
                    self.frames.push(top);
                    assert(frame_views(self.frames@) =~= frame_views(before).push(tv));
                    return Ok(ParseStep::Nested { rel, from });
                },
            }
        }
    }

    /// The build description read so far.
    pub fn finish(self) -> (r: BuildFile)
        ensures
            r@ == self.build_view(),
    {
        self.build
    }
}

} // verus!
