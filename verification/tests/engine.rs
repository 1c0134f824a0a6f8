use chomp::classify::{classify, make_record, CacheRecord};
use chomp::defs::{glob_match, pattern_has_wildcard, Dep, TaskDef};
use chomp::graph::{build, dep_matches, GraphError};
use chomp::sched::{run_pass, Plan, TaskState};
use chomp::uri::uri_parse;
use chomp::watch::{affected, WatchState};

fn task(id: &str, targets: &[&str], deps: &[(&str, bool)], action: &str) -> TaskDef {
    TaskDef {
        id: String::from(id),
        targets: targets.iter().map(|t| String::from(*t)).collect(),
        deps: deps
            .iter()
            .map(|(p, is_task)| Dep {
                pattern: String::from(*p),
                is_task: *is_task,
                mandatory: false,
            })
            .collect(),
        action: String::from(action),
        engine: String::from("shell"),
        serial: false,
        watch: false,
    }
}

fn strings(items: &[&str]) -> Vec<String> {
    items.iter().map(|s| String::from(*s)).collect()
}

fn file_index(files: &[String], path: &str) -> usize {
    files.iter().position(|f| f.as_str() == path).expect("file node missing")
}

/// Compile-and-link definitions shared by several tests.
fn compile_link() -> Vec<TaskDef> {
    vec![
        task("compile", &["out.o"], &[("in.c", false)], "cc -c in.c"),
        task("link", &["app"], &[("out.o", false)], "cc -o app out.o"),
    ]
}

#[test]
fn glob_match_basics() {
    assert!(glob_match("*.c", "in.c"));
    assert!(glob_match("src/*.rs", "src/lib.rs"));
    assert!(!glob_match("*.c", "in.o"));
    assert!(glob_match("exact.txt", "exact.txt"));
    assert!(!glob_match("exact.txt", "other.txt"));
    assert!(glob_match("a*b*c", "a-x-b-y-c"));
    assert!(glob_match("*", ""));
    assert!(!glob_match("", "x"));
    assert!(pattern_has_wildcard("*.c"));
    assert!(!pattern_has_wildcard("in.c"));
}

#[test]
fn dep_matching_kinds() {
    let t = task("compile", &["out.o", "gen/*.h"], &[], "cc");
    let by_id = Dep { pattern: String::from("compile"), is_task: true, mandatory: false };
    let by_target = Dep { pattern: String::from("out.o"), is_task: false, mandatory: false };
    let by_glob = Dep { pattern: String::from("*.o"), is_task: false, mandatory: false };
    let wild_target = Dep { pattern: String::from("gen/x.h"), is_task: false, mandatory: false };
    assert!(dep_matches(&by_id, &t));
    assert!(dep_matches(&by_target, &t));
    assert!(dep_matches(&by_glob, &t));
    // a wildcard target is not a concrete produced path for file deps
    assert!(!dep_matches(&wild_target, &t));
}

#[test]
fn build_topological_order() {
    let defs = compile_link();
    let universe = strings(&["in.c"]);
    let g = build(defs, &universe, &Vec::new()).expect("acyclic build succeeds");
    // the consumer (link) comes after its producer (compile)
    assert!(g.rank[0] < g.rank[1]);
    assert_eq!(g.order.len(), 2);
    // link depends on compile through its file dep on out.o
    assert_eq!(g.depends_on[1], vec![0usize]);
    assert_eq!(g.depends_on[0], Vec::<usize>::new());
}

#[test]
fn build_reports_cycle() {
    let defs = vec![
        task("a", &["a.out"], &[("b", true)], "x"),
        task("b", &["b.out"], &[("a", true)], "y"),
    ];
    let universe: Vec<String> = Vec::new();
    match build(defs, &universe, &Vec::new()) {
        Err(GraphError::Cycle { path }) => {
            assert!(path.len() >= 2);
            assert!(path.contains(&0));
            assert!(path.contains(&1));
        },
        _ => panic!("cyclic definitions must fail with the cycle"),
    }
}

#[test]
fn build_reports_self_cycle() {
    let defs = vec![task("a", &["a.out"], &[("a", true)], "x")];
    let universe: Vec<String> = Vec::new();
    match build(defs, &universe, &Vec::new()) {
        Err(GraphError::Cycle { path }) => assert_eq!(path, vec![0usize]),
        _ => panic!("self dependency must fail with the cycle"),
    }
}

#[test]
fn build_reports_duplicate_producer() {
    let defs = vec![
        task("one", &["same.out"], &[], "x"),
        task("two", &["same.out"], &[], "y"),
    ];
    let universe: Vec<String> = Vec::new();
    match build(defs, &universe, &Vec::new()) {
        Err(GraphError::DuplicateProducer { target, first, second }) => {
            assert_eq!(target, "same.out");
            assert_ne!(first, second);
        },
        _ => panic!("two producers of one concrete target must fail"),
    }
}

#[test]
fn build_reports_unresolved_mandatory() {
    let mut t = task("a", &["a.out"], &[], "x");
    t.deps.push(Dep { pattern: String::from("missing-*.c"), is_task: false, mandatory: true });
    let universe = strings(&["other.c"]);
    match build(vec![t], &universe, &Vec::new()) {
        Err(GraphError::UnresolvedDep { task, dep }) => {
            assert_eq!(task, 0);
            assert_eq!(dep, 0);
        },
        _ => panic!("an unmatched mandatory dependency must fail"),
    }
}

#[test]
fn optional_unmatched_dep_is_no_error() {
    let defs = vec![task("a", &["a.out"], &[("missing-*.c", false)], "x")];
    let universe = strings(&["other.c"]);
    let g = build(defs, &universe, &Vec::new()).expect("optional patterns may match nothing");
    assert!(g.input_files[0].is_empty());
}

#[test]
fn classify_without_cache_is_dirty() {
    let g = build(compile_link(), &strings(&["in.c"]), &Vec::new()).unwrap();
    let cache: Vec<Option<CacheRecord>> = vec![None, None];
    let fps: Vec<Option<u64>> = g.files.iter().map(|_| Some(1u64)).collect();
    let dirty = classify(&g, &cache, &fps, false);
    assert_eq!(dirty, vec![true, true]);
}

#[test]
fn force_marks_everything_dirty() {
    let g = build(compile_link(), &strings(&["in.c"]), &Vec::new()).unwrap();
    let fps: Vec<Option<u64>> = g.files.iter().map(|_| Some(1u64)).collect();
    // a fully fresh cache...
    let cache: Vec<Option<CacheRecord>> = (0..2usize).map(|i| make_record(&g, i, &fps)).collect();
    assert!(classify(&g, &cache, &fps, false).iter().all(|d| !d));
    // ...still reruns everything under force
    let dirty = classify(&g, &cache, &fps, true);
    assert_eq!(dirty, vec![true, true]);
}

#[test]
fn dirty_dependency_propagates() {
    let g = build(compile_link(), &strings(&["in.c"]), &Vec::new()).unwrap();
    let mut fps: Vec<Option<u64>> = g.files.iter().map(|_| Some(1u64)).collect();
    let cache: Vec<Option<CacheRecord>> = (0..2usize).map(|i| make_record(&g, i, &fps)).collect();
    // change only compile's input; link's own record still matches
    fps[file_index(&g.files, "in.c")] = Some(2);
    let dirty = classify(&g, &cache, &fps, false);
    assert!(dirty[0], "compile sees its input change");
    assert!(dirty[1], "link is dirty because compile is, not on its own account");
}

#[test]
fn missing_output_is_dirty() {
    let g = build(compile_link(), &strings(&["in.c"]), &Vec::new()).unwrap();
    let mut fps: Vec<Option<u64>> = g.files.iter().map(|_| Some(1u64)).collect();
    let cache: Vec<Option<CacheRecord>> = (0..2usize).map(|i| make_record(&g, i, &fps)).collect();
    fps[file_index(&g.files, "app")] = None;
    let dirty = classify(&g, &cache, &fps, false);
    assert!(!dirty[0]);
    assert!(dirty[1], "a missing declared output reruns its producer");
}

#[test]
fn scenario_compile_then_link() {
    let g = build(compile_link(), &strings(&["in.c"]), &Vec::new()).unwrap();
    // first run: no cache, outputs absent
    let mut fps: Vec<Option<u64>> = g.files.iter().map(|_| None).collect();
    fps[file_index(&g.files, "in.c")] = Some(10);
    let mut cache: Vec<Option<CacheRecord>> = vec![None, None];
    let dirty = classify(&g, &cache, &fps, false);
    assert_eq!(dirty, vec![true, true]);
    let outcomes = vec![true, true];
    let plan = run_pass(&g, dirty, &outcomes);
    assert_eq!(plan.states, vec![TaskState::Succeeded, TaskState::Succeeded]);
    assert!(plan.result(&g));
    // the pass produced the outputs; refresh fingerprints and cache
    fps[file_index(&g.files, "out.o")] = Some(11);
    fps[file_index(&g.files, "app")] = Some(12);
    cache[0] = make_record(&g, 0, &fps);
    cache[1] = make_record(&g, 1, &fps);
    // second run with no changes: everything clean, nothing executed
    let dirty2 = classify(&g, &cache, &fps, false);
    assert_eq!(dirty2, vec![false, false]);
    let plan2 = run_pass(&g, dirty2, &outcomes);
    assert_eq!(plan2.states, vec![TaskState::Skipped, TaskState::Skipped]);
    assert!(plan2.result(&g));
    // touch in.c: both re-executed, producer before consumer
    fps[file_index(&g.files, "in.c")] = Some(20);
    let dirty3 = classify(&g, &cache, &fps, false);
    assert_eq!(dirty3, vec![true, true]);
    let plan3 = run_pass(&g, dirty3, &outcomes);
    assert_eq!(plan3.states, vec![TaskState::Succeeded, TaskState::Succeeded]);
    assert!(g.rank[0] < g.rank[1]);
}

#[test]
fn partial_failure_spares_independent_branch() {
    // c depends on a; b is independent; a fails
    let defs = vec![
        task("a", &["a.out"], &[], "x"),
        task("b", &["b.out"], &[], "y"),
        task("c", &["c.out"], &[("a", true)], "z"),
    ];
    let g = build(defs, &Vec::new(), &Vec::new()).unwrap();
    let dirty = vec![true, true, true];
    let outcomes = vec![false, true, true];
    let plan = run_pass(&g, dirty, &outcomes);
    assert_eq!(plan.states[0], TaskState::Failed);
    assert_eq!(plan.states[1], TaskState::Succeeded, "the independent branch completes");
    assert_eq!(plan.states[2], TaskState::Skipped, "the dependent is never executed");
    assert!(!plan.result(&g), "the aggregate result reports the failure");
}

#[test]
fn stepwise_scheduling_respects_dependencies() {
    let g = build(compile_link(), &strings(&["in.c"]), &Vec::new()).unwrap();
    let mut plan = Plan::init(&g, vec![true, true]);
    let first = plan.next_ready(&g).expect("compile is ready");
    assert_eq!(first, 0, "link is not dispatchable before compile succeeded");
    plan.enqueue(&g, first);
    plan.start(&g, first);
    plan.complete(&g, first, true);
    let second = plan.next_ready(&g).expect("link becomes ready");
    assert_eq!(second, 1);
    plan.enqueue(&g, second);
    plan.start(&g, second);
    plan.complete(&g, second, true);
    assert!(plan.next_ready(&g).is_none());
    assert!(plan.result(&g));
}

#[test]
fn target_filter_prunes_to_closure() {
    let defs = vec![
        task("compile", &["out.o"], &[("in.c", false)], "cc"),
        task("link", &["app"], &[("out.o", false)], "ld"),
        task("docs", &["docs.html"], &[], "doc"),
    ];
    let g = build(defs, &strings(&["in.c"]), &strings(&["app"])).unwrap();
    assert!(g.selected[0], "the dependency of a requested target is kept");
    assert!(g.selected[1], "the requested target is kept");
    assert!(!g.selected[2], "an unrequested independent task is pruned");
}

#[test]
fn empty_filter_selects_roots() {
    let defs = vec![
        task("compile", &["out.o"], &[("in.c", false)], "cc"),
        task("link", &["app"], &[("out.o", false)], "ld"),
    ];
    let g = build(defs, &strings(&["in.c"]), &Vec::new()).unwrap();
    assert!(g.selected[0], "consumed tasks enter through the root's closure");
    assert!(g.selected[1], "a task nothing consumes is a root");
}

#[test]
fn irrelevant_change_affects_nothing() {
    let defs = compile_link();
    let universe = strings(&["in.c", "notes.txt"]);
    let g = build(defs, &universe, &Vec::new()).unwrap();
    let mut changed = vec![false; g.files.len()];
    changed[file_index(&g.files, "notes.txt")] = true;
    let aff = affected(&g, &changed);
    assert_eq!(aff, vec![false, false]);
}

#[test]
fn tracked_change_affects_exact_closure() {
    let defs = vec![
        task("compile", &["out.o"], &[("in.c", false)], "cc"),
        task("link", &["app"], &[("out.o", false)], "ld"),
        task("docs", &["docs.html"], &[("readme.md", false)], "doc"),
    ];
    let universe = strings(&["in.c", "readme.md"]);
    let g = build(defs, &universe, &Vec::new()).unwrap();
    let mut changed = vec![false; g.files.len()];
    changed[file_index(&g.files, "in.c")] = true;
    let aff = affected(&g, &changed);
    assert!(aff[0], "the task reading the file is affected");
    assert!(aff[1], "its transitive consumer is affected");
    assert!(!aff[2], "an unrelated task is not");
}

#[test]
fn debounce_coalesces_and_queues_followup() {
    let mut w = WatchState::new(3);
    assert!(w.poll(100, 50).is_none(), "nothing to emit while quiet");
    w.on_change(0, 100);
    w.on_change(2, 120);
    assert!(w.poll(130, 50).is_none(), "the window has not elapsed");
    let batch = w.poll(170, 50).expect("the burst is emitted as one batch");
    assert_eq!(batch, vec![true, false, true]);
    // changes during the in-flight run accumulate, and never preempt it
    w.on_change(1, 180);
    assert!(w.poll(300, 50).is_none(), "no new batch while a run is in flight");
    w.finish();
    let batch2 = w.poll(300, 50).expect("the follow-up pass captures them");
    assert_eq!(batch2, vec![false, true, false]);
}

#[test]
fn uri_parse_distinguishes_remote_from_local() {
    assert!(uri_parse("https://example.com/ext.js").is_some());
    assert!(uri_parse("http://localhost:8080/x").is_some());
    assert!(uri_parse("./local/ext.js").is_none());
    assert!(uri_parse("plain-file.js").is_none());
}
