use kage::expand::{
    default_depfile, expand, hash_command, parse_ref, shell_join, shell_quote, ExpandCtx,
};
use kage::parse::DepFormat;
use rustc_hash::FxHashMap;

fn ctx<'a>(
    tools: &'a FxHashMap<String, String>,
    flags: &'a FxHashMap<String, Vec<String>>,
    vars: &'a FxHashMap<String, String>,
    arrays: &'a FxHashMap<String, Vec<String>>,
    specials: &'a FxHashMap<String, String>,
) -> ExpandCtx<'a> {
    ExpandCtx {
        file: "build.mold",
        tools,
        flags,
        vars,
        arrays,
        specials,
    }
}

#[test]
fn expands_tools_flags_and_specials() {
    let mut tools = FxHashMap::default();
    tools.insert("cc".to_string(), "clang".to_string());
    let mut flags = FxHashMap::default();
    flags.insert(
        "cflags".to_string(),
        vec!["-Iinclude".to_string(), "-Wall".to_string(), "-O2".to_string()],
    );
    let vars = FxHashMap::default();
    let arrays = FxHashMap::default();
    let mut specials = FxHashMap::default();
    specials.insert("in".to_string(), "src/main.c".to_string());
    specials.insert("out".to_string(), "build/main.o".to_string());
    specials.insert("depfile".to_string(), "build/main.o.d".to_string());
    let c = ctx(&tools, &flags, &vars, &arrays, &specials);
    let got = expand("$(cc) $(cflags) -MMD -MF $depfile -c $in -o $out", &c).unwrap();
    assert_eq!(
        got,
        "clang -Iinclude -Wall -O2 -MMD -MF build/main.o.d -c src/main.c -o build/main.o"
    );
}

#[test]
fn dollar_dollar_is_literal() {
    let tools = FxHashMap::default();
    let flags = FxHashMap::default();
    let vars = FxHashMap::default();
    let arrays = FxHashMap::default();
    let specials = FxHashMap::default();
    let c = ctx(&tools, &flags, &vars, &arrays, &specials);
    assert_eq!(expand("price $$5", &c).unwrap(), "price $5");
}

#[test]
fn unknown_var_errors() {
    let tools = FxHashMap::default();
    let flags = FxHashMap::default();
    let vars = FxHashMap::default();
    let arrays = FxHashMap::default();
    let specials = FxHashMap::default();
    let c = ctx(&tools, &flags, &vars, &arrays, &specials);
    assert!(expand("$(nope)", &c).is_err());
}

#[test]
fn unknown_var_message_names_it() {
    let tools = FxHashMap::default();
    let flags = FxHashMap::default();
    let vars = FxHashMap::default();
    let arrays = FxHashMap::default();
    let specials = FxHashMap::default();
    let c = ctx(&tools, &flags, &vars, &arrays, &specials);
    let err = expand("$(nope)", &c).unwrap_err();
    assert_eq!(err.message(), "mold: unknown variable 'nope'");
}

#[test]
fn brace_and_bare_references_and_lone_dollar() {
    let mut tools = FxHashMap::default();
    tools.insert("cc".to_string(), "gcc".to_string());
    let flags = FxHashMap::default();
    let mut vars = FxHashMap::default();
    vars.insert("dir".to_string(), "out".to_string());
    let mut arrays = FxHashMap::default();
    arrays.insert("objs".to_string(), vec!["a b.o".to_string(), "c.o".to_string()]);
    let specials = FxHashMap::default();
    let c = ctx(&tools, &flags, &vars, &arrays, &specials);
    assert_eq!(expand("${cc} $dir/x $objs", &c).unwrap(), "gcc out/x 'a b.o' c.o");
    assert_eq!(expand("cost $5 and $", &c).unwrap(), "cost $5 and $");
}

#[test]
fn specials_shadow_tools() {
    let mut tools = FxHashMap::default();
    tools.insert("in".to_string(), "tool".to_string());
    let flags = FxHashMap::default();
    let vars = FxHashMap::default();
    let arrays = FxHashMap::default();
    let mut specials = FxHashMap::default();
    specials.insert("in".to_string(), "special".to_string());
    let c = ctx(&tools, &flags, &vars, &arrays, &specials);
    assert_eq!(expand("$in", &c).unwrap(), "special");
}

#[test]
fn malformed_references_error() {
    let tools = FxHashMap::default();
    let flags = FxHashMap::default();
    let vars = FxHashMap::default();
    let arrays = FxHashMap::default();
    let specials = FxHashMap::default();
    let c = ctx(&tools, &flags, &vars, &arrays, &specials);
    assert_eq!(
        expand("$(abc", &c).unwrap_err().message(),
        "mold: unclosed variable reference"
    );
    assert_eq!(
        expand("$()", &c).unwrap_err().message(),
        "mold: empty variable reference"
    );
    assert_eq!(
        expand("$(a-b)", &c).unwrap_err().message(),
        "mold: invalid variable name in '$(...'"
    );
    assert_eq!(
        expand("${1}", &c).unwrap_err().message(),
        "mold: invalid variable name in '${...'"
    );
}

#[test]
fn shell_quoting() {
    assert_eq!(shell_quote(""), "''");
    assert_eq!(shell_quote("src/a-b_c.o"), "src/a-b_c.o");
    assert_eq!(shell_quote("a b"), "'a b'");
    assert_eq!(shell_quote("it's"), "'it'\\''s'");
    assert_eq!(
        shell_join(&vec!["x".to_string(), "y z".to_string(), "".to_string()]),
        "x 'y z' ''"
    );
    assert_eq!(shell_join(&Vec::new()), "");
}

#[test]
fn command_hash_is_fnv1a() {
    assert_eq!(hash_command(""), 0xcbf29ce484222325);
    assert_eq!(hash_command("a"), 0xaf63dc4c8601ec8c);
    assert_ne!(hash_command("cc -c a.c"), hash_command("cc -c b.c"));
}

#[test]
fn default_depfile_for_gcc_only() {
    assert_eq!(
        default_depfile("build/a.o", DepFormat::Gcc),
        Some("build/a.o.d".to_string())
    );
    assert_eq!(default_depfile("build/a.o", DepFormat::NoDeps), None);
}

#[test]
fn tools_and_vars_are_quoted() {
    let mut tools = FxHashMap::default();
    tools.insert("cc".to_string(), "my cc".to_string());
    let mut flags = FxHashMap::default();
    flags.insert(
        "cflags".to_string(),
        vec!["-DNAME=value with spaces".to_string(), "-O2".to_string()],
    );
    let mut vars = FxHashMap::default();
    vars.insert("dir".to_string(), "a b".to_string());
    let arrays = FxHashMap::default();
    let specials = FxHashMap::default();
    let c = ctx(&tools, &flags, &vars, &arrays, &specials);
    assert_eq!(
        expand("$(cc) $(cflags)", &c).unwrap(),
        "'my cc' '-DNAME=value with spaces' -O2"
    );
    assert_eq!(expand("$dir", &c).unwrap(), "'a b'");
}

#[test]
fn references_parse_from_any_index() {
    let c = |s: &str| s.chars().collect::<Vec<char>>();
    assert!(parse_ref(&c("(cc"), 0).is_err());
    assert!(parse_ref(&c("()"), 0).is_err());
    assert!(parse_ref(&c("{a-b}"), 0).is_err());
    assert_eq!(parse_ref(&c("(cc) x"), 0).unwrap(), ("cc".to_string(), 4));
    assert_eq!(parse_ref(&c("in.c"), 0).unwrap(), ("in".to_string(), 2));
    assert_eq!(parse_ref(&c(" x"), 0).unwrap(), (String::new(), 0));
}

#[test]
fn reference_forms_expand_alike() {
    let mut tools = FxHashMap::default();
    tools.insert("cc".to_string(), "clang".to_string());
    let flags = FxHashMap::default();
    let vars = FxHashMap::default();
    let arrays = FxHashMap::default();
    let specials = FxHashMap::default();
    let c = ctx(&tools, &flags, &vars, &arrays, &specials);
    assert_eq!(expand("$cc", &c).unwrap(), "clang");
    assert_eq!(expand("$(cc)", &c).unwrap(), "clang");
    assert_eq!(expand("${cc}", &c).unwrap(), "clang");
    assert!(expand("$nope", &c).is_err());
}
