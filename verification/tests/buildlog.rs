use kage::buildlog::BuildLog;

#[test]
fn parse_reads_hash_lines() {
    let text = "# kage log v1\n00000000000000ff\tbuild/a.o\n\nnot a line\nzz\tbad.o\n+10\tplus.o\r\n";
    let log = BuildLog::parse(text, "/w/.mold_log".to_string());
    assert_eq!(log.get("build/a.o"), Some(255));
    assert_eq!(log.get("plus.o"), Some(16));
    assert_eq!(log.get("bad.o"), None);
    assert_eq!(log.get("not a line"), None);
    assert_eq!(log.path, "/w/.mold_log");
}

#[test]
fn later_lines_win_and_tabs_stay_in_paths() {
    let text = "1\ta\n2\ta\n3\tb\tc\n";
    let log = BuildLog::parse(text, String::new());
    assert_eq!(log.get("a"), Some(2));
    assert_eq!(log.get("b\tc"), Some(3));
}

#[test]
fn overflowing_hash_is_skipped() {
    let log = BuildLog::parse("10000000000000000\tbig.o\n", String::new());
    assert_eq!(log.get("big.o"), None);
}

#[test]
fn render_sorts_and_pads() {
    let mut log = BuildLog::empty("/w/.mold_log".to_string());
    log.set("z.o", 0xabc);
    log.set("a.o", u64::MAX);
    assert_eq!(
        log.render(),
        "# kage log v1\nffffffffffffffff\ta.o\n0000000000000abc\tz.o\n"
    );
    assert_eq!(BuildLog::empty(String::new()).render(), "# kage log v1\n");
}

#[test]
fn render_then_parse_round_trips() {
    let mut log = BuildLog::empty("/w/.mold_log".to_string());
    log.set("build/a.o", 1);
    log.set("app", 0xdead_beef_0000_0001);
    log.set("dir with space/x", 42);
    let back = BuildLog::parse(&log.render(), "/w/.mold_log".to_string());
    assert_eq!(back.get("build/a.o"), Some(1));
    assert_eq!(back.get("app"), Some(0xdead_beef_0000_0001));
    assert_eq!(back.get("dir with space/x"), Some(42));
    assert_eq!(back.entries.len(), 3);
}

#[test]
fn set_then_get() {
    let mut log = BuildLog::empty(String::new());
    assert_eq!(log.get("x"), None);
    log.set("x", 5);
    log.set("x", 6);
    assert_eq!(log.get("x"), Some(6));
}

#[test]
fn log_lives_in_the_working_directory() {
    assert_eq!(BuildLog::log_path("/w"), "/w/.mold_log");
    assert_eq!(BuildLog::log_path("/w/"), "/w/.mold_log");
}
