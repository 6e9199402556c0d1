use kage::buildlog::BuildLog;
use kage::exec::{JobQueue, Scheduler};
use kage::expand::hash_command;
use kage::files::{FileMeta, StatCache};
use kage::graph::Graph;
use kage::parse::{BuildFile, ParseSession, ParseStep};
use kage::plan::Plan;
use kage::Result;

fn parse_str(src: &str, file: &str) -> Result<BuildFile> {
    let mut session = ParseSession::new(file, None);
    session.push_source(src, file)?;
    match session.step()? {
        ParseStep::Done => Ok(session.finish()),
        ParseStep::Nested { rel, .. } => panic!("unexpected include of {rel}"),
    }
}

fn graph_of(src: &str) -> Result<Graph> {
    let b = parse_str(src, "build.mold").unwrap();
    Graph::from_ast(&b, "/w".to_string())
}

const TWO_STEPS: &str = "instruction c { command: \"cc -c $in -o $out\"; }\n\
instruction link { command: \"ld $in -o $out\"; }\n\
compile c a.c > a.o;\n\
link a.o > app;\n";

/// Plans `targets` against the given stat results and log, with no
/// depfile contents.
fn plan_with(
    g: &Graph,
    targets: &[usize],
    files: &[(&str, Option<i128>)],
    log: &BuildLog,
    always_make: bool,
) -> Result<Plan> {
    let wanted = g.wanted_edges(targets)?;
    let texts: Vec<Option<String>> = g.depfiles_to_read(&wanted).iter().map(|_| None).collect();
    let implicit = g.implicit_inputs(&texts);
    let mut stat = StatCache::new("/w".to_string());
    for p in g.stat_paths(&implicit) {
        let meta = files
            .iter()
            .find(|(q, _)| *q == p.as_str())
            .and_then(|(_, m)| m.map(|t| FileMeta { mtime: t }));
        stat.record(&p, meta);
    }
    g.plan(targets, &implicit, log, &stat, always_make, true)
}

fn full_log(g: &Graph) -> BuildLog {
    let mut log = BuildLog::empty("/w/.mold_log".to_string());
    for e in &g.edges {
        for &o in &e.outs {
            log.set(&g.nodes[o].path, e.command_hash);
        }
    }
    log
}

#[test]
fn graph_nodes_edges_and_defaults() {
    let g = graph_of(TWO_STEPS).unwrap();
    assert_eq!(g.nodes.len(), 3);
    assert_eq!(g.edges.len(), 2);
    assert_eq!(g.edges[0].command, "cc -c a.c -o a.o");
    assert_eq!(g.edges[0].description, "c a.c");
    assert_eq!(g.edges[1].description, "link app");
    assert_eq!(g.edges[0].command_hash, hash_command("cc -c a.c -o a.o"));
    let app = g.find_target("app").unwrap();
    assert_eq!(g.defaults, vec![app]);
    assert_eq!(g.outputs(), vec!["a.o".to_string(), "app".to_string()]);
}

#[test]
fn intern_is_idempotent() {
    let mut g = graph_of(TWO_STEPS).unwrap();
    let n = g.nodes.len();
    let a = g.intern("new.h");
    let b = g.intern("new.h");
    assert_eq!(a, n);
    assert_eq!(a, b);
    assert_eq!(g.nodes.len(), n + 1);
    assert_eq!(g.intern("a.c"), 0);
}

#[test]
fn find_target_by_suffix_and_file_name() {
    let src = "instruction c { command: \"cc -c $in -o $out\"; }\n\
               compile c src/a.c > build/obj/a.o;\n\
               compile c src/b.c > build/b.o;\n";
    let g = graph_of(src).unwrap();
    let a = g.find_target("build/obj/a.o").unwrap();
    assert_eq!(g.find_target("obj/a.o"), Some(a));
    assert_eq!(g.find_target("a.o"), Some(a));
    assert_eq!(g.find_target("missing.o"), None);
    let err = g.resolve_targets(&["nope".to_string()]).unwrap_err();
    assert_eq!(err.message(), "mold: unknown target 'nope'");
    assert_eq!(g.resolve_targets(&[]).unwrap().len(), 2);
}

#[test]
fn duplicate_producers_are_an_error() {
    let src = "instruction c { command: \"cc -c $in -o $out\"; }\n\
               compile c a.c > a.o;\n\
               compile c b.c > a.o;\n";
    let err = graph_of(src).unwrap_err();
    assert_eq!(err.message(), "mold: multiple rules produce 'a.o': lines 2 and 3");
}

#[test]
fn unknown_default_is_an_error() {
    let src = "instruction c { command: \"cc -c $in -o $out\"; }\n\
               compile c a.c > a.o;\n\
               default b.o;\n";
    let err = graph_of(src).unwrap_err();
    assert_eq!(err.message(), "mold: unknown default target 'b.o'");
}

#[test]
fn repeated_output_in_one_statement_is_an_error() {
    let src = "instruction c { command: \"cc -c $in -o $out\"; }\n\
               compile c a.c > a.o a.o;\n";
    let err = graph_of(src).unwrap_err();
    assert_eq!(err.message(), "mold: multiple rules produce 'a.o': lines 2 and 2");
}

#[test]
fn earlier_producer_is_reported_before_a_repeat() {
    let src = "instruction c { command: \"cc -c $in -o $out\"; }\n\
               compile c a.c > b.o;\n\
               compile c x.c > b.o c.o c.o;\n";
    let err = graph_of(src).unwrap_err();
    assert_eq!(err.message(), "mold: multiple rules produce 'b.o': lines 2 and 3");
}

#[test]
fn expansion_error_comes_before_a_repeat() {
    let src = "instruction c { command: \"cc -c $in -o $out\"; }\n\
               compile c $(nope) > a.o a.o;\n";
    let err = graph_of(src).unwrap_err();
    assert_eq!(err.message(), "mold: unknown variable 'nope'");
}

#[test]
fn up_to_date_build_has_nothing_to_do() {
    let g = graph_of(TWO_STEPS).unwrap();
    let log = full_log(&g);
    let app = g.find_target("app").unwrap();
    let files = [("a.c", Some(1)), ("a.o", Some(2)), ("app", Some(3))];
    let p = plan_with(&g, &[app], &files, &log, false).unwrap();
    assert!(p.dirty.is_empty());
    assert!(p.ready.is_empty());
    assert_eq!(p.wait, vec![0, 0]);
}

#[test]
fn newer_source_makes_the_chain_dirty() {
    let g = graph_of(TWO_STEPS).unwrap();
    let log = full_log(&g);
    let app = g.find_target("app").unwrap();
    let files = [("a.c", Some(5)), ("a.o", Some(2)), ("app", Some(3))];
    let p = plan_with(&g, &[app], &files, &log, false).unwrap();
    assert_eq!(p.dirty, vec![0, 1]);
    assert_eq!(p.ready, vec![0]);
    assert_eq!(p.wait, vec![0, 1]);
    assert_eq!(
        p.reasons[0],
        Some("input 'a.c' is newer than 'a.o'".to_string())
    );
    assert_eq!(p.reasons[1], Some("input 'a.o' is dirty".to_string()));
}

#[test]
fn missing_output_and_log_entries_are_reasons() {
    let g = graph_of(TWO_STEPS).unwrap();
    let app = g.find_target("app").unwrap();
    let files = [("a.c", Some(1)), ("a.o", None), ("app", Some(3))];
    let p = plan_with(&g, &[app], &files, &full_log(&g), false).unwrap();
    assert_eq!(p.reasons[0], Some("output 'a.o' is missing".to_string()));
    let files = [("a.c", Some(1)), ("a.o", Some(2)), ("app", Some(3))];
    let empty = BuildLog::empty("/w/.mold_log".to_string());
    let p = plan_with(&g, &[app], &files, &empty, false).unwrap();
    assert_eq!(p.reasons[0], Some("'a.o' has no recorded command".to_string()));
    let mut changed = full_log(&g);
    changed.set("app", 7);
    let p = plan_with(&g, &[app], &files, &changed, false).unwrap();
    assert_eq!(p.dirty, vec![1]);
    assert_eq!(p.reasons[1], Some("command line changed for 'app'".to_string()));
}

#[test]
fn always_make_rebuilds_every_wanted_edge() {
    let g = graph_of(TWO_STEPS).unwrap();
    let a_o = g.find_target("a.o").unwrap();
    let files = [("a.c", Some(1)), ("a.o", Some(2)), ("app", Some(3))];
    let p = plan_with(&g, &[a_o], &files, &full_log(&g), true).unwrap();
    assert_eq!(p.dirty, vec![0]);
    assert_eq!(p.reasons[0], Some("forced rebuild (-B)".to_string()));
    assert_eq!(p.reasons[1], None);
}

#[test]
fn missing_source_is_an_error() {
    let g = graph_of(TWO_STEPS).unwrap();
    let app = g.find_target("app").unwrap();
    let files = [("a.c", None), ("a.o", Some(2)), ("app", Some(3))];
    let err = plan_with(&g, &[app], &files, &full_log(&g), false).unwrap_err();
    assert_eq!(err.message(), "mold: missing input 'a.c' needed by 'a.o'");
}

#[test]
fn cycle_is_an_error() {
    let src = "instruction c { command: \"cp $in $out\"; }\n\
               compile c b > a;\n\
               compile c a > b;\n";
    let g = graph_of(src).unwrap();
    let a = g.find_target("a").unwrap();
    let err = g.wanted_edges(&[a]).unwrap_err();
    assert_eq!(err.message(), "mold: dependency cycle involving 'a'");
}

#[test]
fn depfile_inputs_join_the_plan() {
    let src = "instruction c { command: \"cc -MF $depfile -c $in -o $out\"; depformat: gcc; }\n\
               compile c a.c > a.o;\n";
    let g = graph_of(src).unwrap();
    assert_eq!(g.edges[0].depfile, Some("a.o.d".to_string()));
    let a_o = g.find_target("a.o").unwrap();
    let wanted = g.wanted_edges(&[a_o]).unwrap();
    assert_eq!(wanted, vec![true]);
    let to_read = g.depfiles_to_read(&wanted);
    assert_eq!(to_read, vec![Some("a.o.d".to_string())]);
    let texts = vec![Some("a.o: a.c a.h\n".to_string())];
    let implicit = g.implicit_inputs(&texts);
    assert_eq!(implicit, vec![vec!["a.c".to_string(), "a.h".to_string()]]);
    let mut paths = g.stat_paths(&implicit);
    paths.sort();
    assert!(paths.contains(&"a.h".to_string()));
    assert!(paths.contains(&"a.o.d".to_string()));
    let mut stat = StatCache::new("/w".to_string());
    for p in &paths {
        let t = match p.as_str() {
            "a.h" => Some(9),
            _ => Some(1),
        };
        stat.record(p, t.map(|m| FileMeta { mtime: m }));
    }
    let log = full_log(&g);
    let p = g.plan(&[a_o], &implicit, &log, &stat, false, true).unwrap();
    assert_eq!(p.dirty, vec![0]);
    assert_eq!(p.reasons[0], Some("input 'a.h' is newer than 'a.o'".to_string()));
}

#[test]
fn scheduler_hands_out_in_dependency_order() {
    let g = graph_of(TWO_STEPS).unwrap();
    let app = g.find_target("app").unwrap();
    let files = [("a.c", Some(5)), ("a.o", Some(2)), ("app", Some(3))];
    let p = plan_with(&g, &[app], &files, &full_log(&g), false).unwrap();
    let mut s = Scheduler::new(&g, &p);
    let first = s.next(&g);
    assert_eq!(first, Some(0));
    assert_eq!(s.next(&g), None);
    s.complete(&g, 0);
    assert_eq!(s.next(&g), Some(1));
    s.complete(&g, 1);
    assert_eq!(s.next(&g), None);
}

#[test]
fn record_built_updates_log_and_forgets_stats() {
    let src = "instruction c { command: \"cc -MF $depfile -c $in -o $out\"; depformat: gcc; }\n\
               compile c a.c > a.o;\n";
    let g = graph_of(src).unwrap();
    let mut log = BuildLog::empty("/w/.mold_log".to_string());
    let mut stat = StatCache::new("/w".to_string());
    stat.record("a.o", None);
    stat.record("a.o.d", None);
    stat.record("a.c", Some(FileMeta { mtime: 1 }));
    g.record_built(0, &mut log, &mut stat);
    assert_eq!(log.get("a.o"), Some(g.edges[0].command_hash));
    assert_eq!(stat.lookup("a.o"), None);
    assert_eq!(stat.lookup("a.o.d"), None);
    assert_eq!(stat.lookup("a.c"), Some(Some(FileMeta { mtime: 1 })));
    assert_eq!(
        g.job_paths(0),
        vec!["/w/a.o".to_string(), "/w/a.o.d".to_string()]
    );
}

#[test]
fn first_missing_source_in_walk_order_is_reported() {
    let src = "instruction c { command: \"cc -c $in -o $out\"; }\n\
               instruction link { command: \"ld $in -o $out\"; }\n\
               compile c b.c > b.o;\n\
               compile c a.c > a.o;\n\
               link a.o b.o > app;\n";
    let g = graph_of(src).unwrap();
    let app = g.find_target("app").unwrap();
    let files = [
        ("a.c", None),
        ("b.c", None),
        ("a.o", Some(1)),
        ("b.o", Some(1)),
        ("app", Some(1)),
    ];
    let err = plan_with(&g, &[app], &files, &full_log(&g), false).unwrap_err();
    assert_eq!(err.message(), "mold: missing input 'b.c' needed by 'b.o'");
}

#[test]
fn missing_order_only_source_is_named_so() {
    let src = "instruction c { command: \"cc -c $in -o $out\"; }\n\
               compile c x.c @ gen.h > x.o;\n";
    let g = graph_of(src).unwrap();
    let x = g.find_target("x.o").unwrap();
    let files = [("x.c", Some(1)), ("gen.h", None), ("x.o", Some(2))];
    let err = plan_with(&g, &[x], &files, &full_log(&g), false).unwrap_err();
    assert_eq!(
        err.message(),
        "mold: missing order-only input 'gen.h' needed by 'x.o'"
    );
}

#[test]
fn a_failure_stops_the_run_unless_keep_going() {
    let src = "instruction c { command: \"cc -c $in -o $out\"; }\n\
               instruction link { command: \"ld $in -o $out\"; }\n\
               compile c a.c > a.o;\n\
               compile c b.c > b.o;\n\
               link a.o b.o > app;\n";
    let g = graph_of(src).unwrap();
    let app = g.find_target("app").unwrap();
    let files = [
        ("a.c", Some(9)),
        ("b.c", Some(9)),
        ("a.o", Some(1)),
        ("b.o", Some(1)),
        ("app", Some(1)),
    ];
    let p = plan_with(&g, &[app], &files, &full_log(&g), false).unwrap();
    let mut q = JobQueue::new(&g, &p, 1);
    assert_eq!(q.next(&g), Some(0));
    assert!(q.finish_job(&g, 0, false, false));
    assert!(q.stopped());
    assert_eq!(q.next(&g), None);
    assert_eq!(q.started(&g), 1);
    assert_eq!(q.outcome(&g, 5).unwrap_err().message(), "mold: 1 job(s) failed");

    let mut q = JobQueue::new(&g, &p, 1);
    assert_eq!(q.next(&g), Some(0));
    assert!(!q.finish_job(&g, 0, false, true));
    assert_eq!(q.next(&g), Some(1));
    assert!(!q.finish_job(&g, 1, true, true));
    assert_eq!(q.next(&g), None);
    assert_eq!(q.failed_count(), 1);

    let mut q = JobQueue::new(&g, &p, 1);
    for e in [0, 1, 2] {
        assert_eq!(q.next(&g), Some(e));
        q.finish_job(&g, e, true, false);
    }
    let r = q.outcome(&g, 5).unwrap();
    assert_eq!(r.ran, 3);
}

#[test]
fn consumers_are_listed_in_ascending_order() {
    let src = "instruction c { command: \"cc -c $in -o $out\"; }\n\
               instruction link { command: \"ld $in -o $out\"; }\n\
               compile c a.c @ cfg.h > a.o;\n\
               compile c b.c cfg.h cfg.h > b.o;\n\
               link a.o b.o cfg.h > app;\n";
    let g = graph_of(src).unwrap();
    let cfg = g.find_target("cfg.h").unwrap();
    assert_eq!(g.nodes[cfg].consumers, vec![0, 1, 1, 2]);
}

#[test]
fn no_more_jobs_in_flight_than_slots() {
    let src = "instruction c { command: \"cc -c $in -o $out\"; }\n\
               instruction link { command: \"ld $in -o $out\"; }\n\
               compile c a.c > a.o;\n\
               compile c b.c > b.o;\n\
               link a.o b.o > app;\n";
    let g = graph_of(src).unwrap();
    let app = g.find_target("app").unwrap();
    let files = [
        ("a.c", Some(9)),
        ("b.c", Some(9)),
        ("a.o", Some(1)),
        ("b.o", Some(1)),
        ("app", Some(1)),
    ];
    let p = plan_with(&g, &[app], &files, &full_log(&g), false).unwrap();

    let mut q = JobQueue::new(&g, &p, 1);
    assert_eq!(q.next(&g), Some(0));
    assert_eq!(q.running(&g), 1);
    assert_eq!(q.next(&g), None);
    assert!(!q.idle(&g));
    q.finish_job(&g, 0, true, false);
    assert_eq!(q.running(&g), 0);
    assert_eq!(q.next(&g), Some(1));

    let mut q = JobQueue::new(&g, &p, 2);
    assert_eq!(q.next(&g), Some(0));
    assert_eq!(q.next(&g), Some(1));
    assert_eq!(q.running(&g), 2);
    assert_eq!(q.next(&g), None);
    q.finish_job(&g, 1, true, false);
    assert_eq!(q.next(&g), None);
    assert!(!q.idle(&g));
    q.finish_job(&g, 0, true, false);
    assert_eq!(q.next(&g), Some(2));
    q.finish_job(&g, 2, true, false);
    assert_eq!(q.next(&g), None);
    assert!(q.idle(&g));
    assert_eq!(q.outcome(&g, 1).unwrap().ran, 3);
}

#[test]
fn newer_order_only_input_does_not_dirty() {
    let src = "instruction c { command: \"cc -c $in -o $out\"; }\n\
               compile c x.c @ gen.h > x.o;\n";
    let g = graph_of(src).unwrap();
    let x = g.find_target("x.o").unwrap();
    let files = [("x.c", Some(1)), ("gen.h", Some(9)), ("x.o", Some(5))];
    let p = plan_with(&g, &[x], &files, &full_log(&g), false).unwrap();
    assert!(p.dirty.is_empty());

    let files = [("x.c", Some(9)), ("gen.h", Some(1)), ("x.o", Some(5))];
    let p = plan_with(&g, &[x], &files, &full_log(&g), false).unwrap();
    assert_eq!(p.dirty, vec![0]);
}
