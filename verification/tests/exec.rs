use kage::exec::{
    build_outcome, clean_outcome, colorize_desc, failure_message, format_elapsed, idle_outcome,
    json_escape, progress_prefix, worker_count, Palette,
};
use kage::files::{include_path, join_path};
use kage::graph::Graph;
use kage::parse::{BuildFile, ParseSession, ParseStep};
use kage::Options;

fn parse_str(src: &str, file: &str) -> BuildFile {
    let mut session = ParseSession::new(file, None);
    session.push_source(src, file).unwrap();
    match session.step().unwrap() {
        ParseStep::Done => session.finish(),
        ParseStep::Nested { .. } => panic!("unexpected include"),
    }
}

#[test]
fn elapsed_times() {
    assert_eq!(format_elapsed(0), "0ms");
    assert_eq!(format_elapsed(999), "999ms");
    assert_eq!(format_elapsed(1000), "1.000s");
    assert_eq!(format_elapsed(12345), "12.345s");
    assert_eq!(format_elapsed(1005), "1.005s");
}

#[test]
fn palette_wraps_only_when_on() {
    let on = Palette::new(Some(true), false);
    let off = Palette::new(Some(false), true);
    assert_eq!(on.red("x"), "\x1b[31mx\x1b[0m");
    assert_eq!(on.dim("x"), "\x1b[2mx\x1b[0m");
    assert_eq!(on.bold("x"), "\x1b[1mx\x1b[0m");
    assert_eq!(on.green("x"), "\x1b[32mx\x1b[0m");
    assert_eq!(off.red("x"), "x");
    assert!(Palette::new(None, true).on);
    assert!(!Palette::new(None, false).on);
    assert_eq!(colorize_desc(&on, "link", "link app"), "\x1b[35mlink app\x1b[0m");
    assert_eq!(colorize_desc(&on, "c", "c a.c"), "\x1b[36mc a.c\x1b[0m");
}

#[test]
fn json_escaping() {
    assert_eq!(json_escape("plain"), "plain");
    assert_eq!(json_escape("a\"b\\c"), "a\\\"b\\\\c");
    assert_eq!(json_escape("l1\nl2\r\t"), "l1\\nl2\\r\\t");
    assert_eq!(json_escape("\u{1}"), "\\u0001");
    assert_eq!(json_escape("\u{9f}"), "\\u009f");
}

#[test]
fn progress_and_failure_texts() {
    assert_eq!(progress_prefix(3, 12), "[ 3/12]");
    assert_eq!(progress_prefix(12, 12), "[12/12]");
    assert_eq!(progress_prefix(1, 1), "[1/1]");
    assert_eq!(failure_message("false", ""), "FAILED: false\n");
    assert_eq!(failure_message("cc x", "err"), "FAILED: cc x\nerr\n");
    assert_eq!(failure_message("cc x", "err\n"), "FAILED: cc x\nerr\n");
}

#[test]
fn outcomes() {
    assert_eq!(worker_count(0, 5), 1);
    assert_eq!(worker_count(8, 5), 5);
    assert_eq!(worker_count(3, 5), 3);
    let ok = build_outcome(4, 0, 10).unwrap();
    assert_eq!((ok.ran, ok.failed, ok.elapsed_ms, ok.nothing_to_do), (4, 0, 10, false));
    let err = build_outcome(4, 2, 10).unwrap_err();
    assert_eq!(err.message(), "mold: 2 job(s) failed");
    let idle = idle_outcome(7);
    assert!(idle.nothing_to_do && idle.ran == 0 && idle.elapsed_ms == 7);
    let c = clean_outcome(0);
    assert!(c.nothing_to_do);
    assert_eq!(clean_outcome(3).ran, 3);
}

#[test]
fn paths_join_like_path_join() {
    assert_eq!(join_path("/w", "a.o"), "/w/a.o");
    assert_eq!(join_path("/w/", "a.o"), "/w/a.o");
    assert_eq!(join_path("/w", "/abs/a.o"), "/abs/a.o");
    assert_eq!(join_path("", "a.o"), "a.o");
}

#[test]
fn listing_compdb_and_clean_paths() {
    let src = "instruction c { command: \"cc -c $in -o $out\"; depformat: gcc; }\n\
               instruction link { command: \"ld $in -o $out\"; }\n\
               compile c b.c > b.o;\n\
               compile c a.c > a.o;\n\
               link a.o b.o > app;\n";
    let b = parse_str(src, "build.mold");
    let g = Graph::from_ast(&b, "/w".to_string()).unwrap();
    assert_eq!(
        g.target_list(),
        vec!["a.o".to_string(), "app".to_string(), "b.o".to_string()]
    );
    let db = g.compdb();
    assert_eq!(
        db,
        "[\n  {\"directory\": \"/w\", \"command\": \"cc -c b.c -o b.o\", \"file\": \"b.c\", \"output\": \"b.o\"},\n  {\"directory\": \"/w\", \"command\": \"cc -c a.c -o a.o\", \"file\": \"a.c\", \"output\": \"a.o\"}\n]\n"
    );
    let (outs, deps) = g.clean_paths();
    assert_eq!(
        outs,
        vec!["/w/b.o".to_string(), "/w/a.o".to_string(), "/w/app".to_string()]
    );
    assert_eq!(deps, vec!["/w/b.o.d".to_string(), "/w/a.o.d".to_string()]);
}

#[test]
fn default_options() {
    let o = Options::with_jobs(4);
    assert_eq!(o.file, "build.mold");
    assert_eq!(o.jobs, 4);
    assert!(o.directory.is_none() && o.targets.is_empty() && o.color.is_none());
    assert!(!o.dry_run && !o.clean && !o.always_make);
}

#[test]
fn include_paths_follow_the_including_file() {
    assert_eq!(include_path("/p/a.mold", "sub/b.mold"), "/p/sub/b.mold");
    assert_eq!(include_path("/p/sub/b.mold", "c.mold"), "/p/sub/c.mold");
    assert_eq!(include_path("/p/sub/c.mold", "../a.mold"), "/p/sub/../a.mold");
    assert_eq!(include_path("build.mold", "x.mold"), "x.mold");
    assert_eq!(include_path("/a.mold", "x.mold"), "/x.mold");
    assert_eq!(include_path("/p/a.mold", "/abs/x.mold"), "/abs/x.mold");
}
