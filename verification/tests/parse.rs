use kage::parse::{BuildFile, DepFormat, ParseSession, ParseStep, Statement};
use kage::Result;

const SPEC_EXAMPLE: &str = r#"
tool cc = clang;
tool nasm = nasm;
tool ld = ld.lld;
flags cflags = [
    -Iinclude,
    -Wall,
    -Wextra,
    -O2
];
flags ldflags = [];
instruction c {
    command: "$(cc) $(cflags) -MMD -MF $depfile -c $in -o $out";
    depformat: gcc;
}
instruction asm {
    command: "$(nasm) -f elf64 -g -F dwarf $in -o $out";
}
instruction link {
    command: "$(ld) $(ldflags) $in -o $out";
}
array compiled = [];
compile c src/main.c > build/main.o | compiled;
compile c src/lol.c  > build/lol.o | compiled;
compile asm src/start.asm > build/start.o | compiled;
link compiled > "example_project";
"#;

/// Parses a source that includes no other file.
fn parse_str(src: &str, file: &str) -> Result<BuildFile> {
    let mut session = ParseSession::new(file, None);
    session.push_source(src, file)?;
    match session.step()? {
        ParseStep::Done => Ok(session.finish()),
        ParseStep::Nested { rel, .. } => panic!("unexpected include of {rel}"),
    }
}

#[test]
fn parse_user_spec() {
    let b = parse_str(SPEC_EXAMPLE, "build.mold").unwrap();
    assert_eq!(b.tools.get("cc").unwrap(), "clang");
    assert_eq!(b.tools.get("nasm").unwrap(), "nasm");
    assert_eq!(b.tools.get("ld").unwrap(), "ld.lld");
    assert_eq!(
        b.flags.get("cflags").unwrap(),
        &vec![
            "-Iinclude".to_string(),
            "-Wall".to_string(),
            "-Wextra".to_string(),
            "-O2".to_string()
        ]
    );
    assert!(b.flags.get("ldflags").unwrap().is_empty());
    let c = b.instructions.get("c").unwrap();
    assert_eq!(c.command, "$(cc) $(cflags) -MMD -MF $depfile -c $in -o $out");
    assert_eq!(c.depformat, DepFormat::Gcc);
    assert!(b.instructions.contains_key("asm"));
    assert!(b.instructions.contains_key("link"));
    assert_eq!(
        b.arrays.get("compiled").unwrap(),
        &vec![
            "build/main.o".to_string(),
            "build/lol.o".to_string(),
            "build/start.o".to_string()
        ]
    );
    assert_eq!(b.statements.len(), 4);
    match &b.statements[3] {
        Statement::Link {
            inputs, outputs, ..
        } => {
            assert_eq!(
                inputs,
                &vec![
                    "build/main.o".to_string(),
                    "build/lol.o".to_string(),
                    "build/start.o".to_string()
                ]
            );
            assert_eq!(outputs, &vec!["example_project".to_string()]);
        }
        _ => panic!("expected link"),
    }
}

#[test]
fn parse_comments_and_vars() {
    let src = r#"
            # comment
            // also a comment
            var builddir = build;
            tool cc = gcc;
            flags cflags = [-O2, -std=c11];
            instruction c {
                command: "$(cc) $(cflags) -c $in -o $out";
            }
            compile c src/a.c > $(builddir)/a.o;
        "#;
    let b = parse_str(src, "t.mold").unwrap();
    assert_eq!(b.vars.get("builddir").unwrap(), "build");
    assert_eq!(b.flags.get("cflags").unwrap()[1], "-std=c11");
    match &b.statements[0] {
        Statement::Compile { outputs, .. } => {
            assert_eq!(outputs[0], "$(builddir)/a.o");
        }
        _ => panic!(),
    }
}

#[test]
fn missing_semicolon_errors() {
    let src = r#"
            tool cc = gcc
            flags cflags = [];
        "#;
    let err = parse_str(src, "bad.mold").unwrap_err();
    let msg = err.message();
    assert!(msg.contains("bad.mold:"), "{msg}");
    assert!(msg.contains("expected ';'"), "{msg}");
}

#[test]
fn unknown_array_errors() {
    let src = r#"
            tool cc = gcc;
            instruction c { command: "gcc -c $in -o $out"; }
            compile c src/a.c > a.o | nope;
        "#;
    let err = parse_str(src, "bad.mold").unwrap_err();
    assert!(err.message().contains("unknown array 'nope'"));
}

#[test]
fn include_stops_the_step_and_nests() {
    let mut session = ParseSession::new("main.mold", Some("/p/main.mold".to_string()));
    session
        .push_source("tool cc = gcc;\ninclude sub.mold;\nvar x = y;\n", "main.mold")
        .unwrap();
    let rel = match session.step().unwrap() {
        ParseStep::Nested { rel, from } => {
            assert_eq!(from, "main.mold");
            rel
        }
        ParseStep::Done => panic!("expected an include"),
    };
    assert_eq!(rel, "sub.mold");
    session.enter_include("/p/sub.mold", "sub.mold").unwrap();
    session.push_source("var z = w;\n", "sub.mold").unwrap();
    match session.step().unwrap() {
        ParseStep::Done => {}
        ParseStep::Nested { .. } => panic!("no more includes"),
    }
    let b = session.finish();
    assert_eq!(b.tools.get("cc").unwrap(), "gcc");
    assert_eq!(b.vars.get("z").unwrap(), "w");
    assert_eq!(b.vars.get("x").unwrap(), "y");
}

#[test]
fn include_cycle_is_rejected() {
    let mut session = ParseSession::new("main.mold", Some("/p/main.mold".to_string()));
    session.push_source("include main.mold;\n", "main.mold").unwrap();
    match session.step().unwrap() {
        ParseStep::Nested { .. } => {}
        ParseStep::Done => panic!("expected an include"),
    }
    let err = session.enter_include("/p/main.mold", "main.mold").unwrap_err();
    assert_eq!(
        err.message(),
        "main.mold:1:1: include cycle involving 'main.mold'"
    );
}

#[test]
fn link_without_instruction_and_defaults() {
    let src = "instruction link { command: \"ld $in -o $out\"; description: \"LD $out\"; }\n\
               link a.o b.o @ gen.h > app;\n\
               default app;\n";
    let b = parse_str(src, "x.mold").unwrap();
    assert_eq!(b.defaults, vec!["app".to_string()]);
    match &b.statements[0] {
        Statement::Link {
            inputs,
            order_only_inputs,
            outputs,
            line,
        } => {
            assert_eq!(inputs, &vec!["a.o".to_string(), "b.o".to_string()]);
            assert_eq!(order_only_inputs, &vec!["gen.h".to_string()]);
            assert_eq!(outputs, &vec!["app".to_string()]);
            assert_eq!(*line, 2);
        }
        _ => panic!("expected link"),
    }
    let link = b.instructions.get("link").unwrap();
    assert_eq!(link.description, Some("LD $out".to_string()));
    assert_eq!(link.depformat, DepFormat::NoDeps);
}
