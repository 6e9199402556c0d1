use kage::depfile::parse_depfile;

#[test]
fn simple_rule() {
    let deps = parse_depfile("build/main.o: src/main.c include/lol.h\n", "build/main.o");
    assert_eq!(deps, vec!["include/lol.h", "src/main.c"]);
}

#[test]
fn continuations_and_escapes() {
    let text = r#"build/main.o: src/main.c \
  include/foo.h \
  include/bar\ baz.h
"#;
    let deps = parse_depfile(text, "build/main.o");
    assert_eq!(
        deps,
        vec!["include/bar baz.h", "include/foo.h", "src/main.c"]
    );
}

#[test]
fn ignores_self_target() {
    let deps = parse_depfile("a.o: a.o src/a.c\n", "a.o");
    assert_eq!(deps, vec!["src/a.c"]);
}

#[test]
fn falls_back_to_every_rule_when_no_target_matches() {
    let deps = parse_depfile("x.o: a.h b.h\ny.o: b.h c.h\n", "z.o");
    assert_eq!(deps, vec!["a.h", "b.h", "c.h"]);
}

#[test]
fn only_rules_for_the_output_when_one_matches() {
    let deps = parse_depfile("x.o: a.h\nbuild/y.o: b.h\n", "build/y.o");
    assert_eq!(deps, vec!["b.h"]);
}

#[test]
fn comments_and_blank_lines_are_skipped() {
    let deps = parse_depfile("# generated\n\n  a.o: z.h y.h z.h\r\n", "a.o");
    assert_eq!(deps, vec!["y.h", "z.h"]);
}

#[test]
fn backslashes_in_target_compare_as_slashes() {
    let deps = parse_depfile("build\\\\a.o: src/a.c\nother.o: x.h\n", "build/a.o");
    assert_eq!(deps, vec!["src/a.c"]);
}

#[test]
fn escaped_colon_is_not_a_separator() {
    let deps = parse_depfile("c\\:/a.o: dep.h\n", "c:/a.o");
    assert_eq!(deps, vec!["dep.h"]);
}

#[test]
fn line_without_colon_gives_nothing() {
    let deps = parse_depfile("no separator here\n", "a.o");
    assert!(deps.is_empty());
}
