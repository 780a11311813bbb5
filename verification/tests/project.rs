//! Whole projects, built in memory: the files, the do-files and the clock are
//! simulated, everything that is decided comes from the library.

use redo_msh::asking;
use redo_msh::building::{is_target, temp_output, Facts, Look, Output, Ran};
use redo_msh::check::{check_plan, check_recorded, edges_inserted, Answer, Item, Verdict, Waited};
use redo_msh::cli::{forward_usage, run, run_forward, usage, Command};
use redo_msh::config::{Config, Platform, Platforms, Section};
use redo_msh::context::normalize_target;
use redo_msh::db::{DbOp, DepKind, Store};
use redo_msh::dofile::{candidates, find, DoFile};
use redo_msh::outdated::{current_csum, fresh_csum, is_ood_static, CsumStep, Meta, Now};
use redo_msh::jobserver::{Jobserver, TokenSrc};
use redo_msh::overwrite::{overwrite_problem, Evidence};
use redo_msh::parallel::{ensure_all, Failure, Registry, TokenStep};
use redo_msh::paths::FsPath;
use redo_msh::requests::{
    always, cycle_error, distinct_targets, ifcreate, Awaited, Demand, DemandStep, Wanted,
};
use redo_msh::root::Root;
use redo_msh::stamp::{hash_bytes, stamp_file, Found, Stamp};
use redo_msh::steps::{self, Build, Job};
use redo_msh::tree::{cmd_tree, roots, sources, targets};
use redo_msh::waits::{
    clear_waiter, edge_alive, try_demand, try_demand_batch, try_soft_batch, EdgeKind, EdgeRef,
    WaitGraph,
};
use redo_msh::work::{self, Work};
use std::collections::BTreeMap;

const ME: &str = "1-aa";

/// One step of a simulated do-file.
#[derive(Clone, Debug)]
enum Step {
    /// `redo-ifchange`, with paths relative to the do-file's directory.
    IfChange(Vec<String>),
    IfCreate(Vec<String>),
    Always,
    /// Write to `$3`: a text, or the content of a file.
    Text(String),
    Copy(String),
    /// Write to standard output.
    Stdout(String),
    /// Append the first argument to a file, and the second to another.
    Args(String, String),
    /// Write the first argument to `$3`.
    TextOfArg,
    Log(String),
    Fail(i32),
}

fn on(v: &[&str]) -> Step {
    Step::IfChange(v.iter().map(|s| s.to_string()).collect())
}

fn text(s: &str) -> Step {
    Step::Text(s.to_string())
}

fn copy(s: &str) -> Step {
    Step::Copy(s.to_string())
}

fn log(s: &str) -> Step {
    Step::Log(s.to_string())
}

struct Project {
    root: Root,
    files: BTreeMap<String, (Vec<u8>, i64)>,
    rules: BTreeMap<String, Vec<Step>>,
    store: Store,
    graph: WaitGraph,
    clock: i64,
    session: i64,
    yes: bool,
    /// What the commands in do-files printed.
    stderr: String,
}

impl Project {
    fn new() -> Project {
        Project {
            root: Root { dir: FsPath::parse("/proj") },
            files: BTreeMap::new(),
            rules: BTreeMap::new(),
            store: Store::new(),
            graph: WaitGraph::new(),
            clock: 1_700_000_000_000_000_001,
            session: 0,
            yes: false,
            stderr: String::new(),
        }
    }

    fn put(&mut self, path: &str, data: &[u8]) {
        self.clock += 1_000_000_007;
        self.files.insert(path.to_string(), (data.to_vec(), self.clock));
    }

    fn write(&mut self, path: &str, data: &str) {
        self.put(path, data.as_bytes());
    }

    fn rule(&mut self, path: &str, steps: &[Step]) {
        self.rules.insert(path.to_string(), steps.to_vec());
        self.write(path, &format!("{steps:?}"));
    }

    fn read(&self, path: &str) -> String {
        String::from_utf8(self.files[path].0.clone()).unwrap()
    }

    fn lines(&self, path: &str) -> usize {
        self.files.get(path).map_or(0, |f| String::from_utf8_lossy(&f.0).lines().count())
    }

    fn there(&self, path: &str) -> bool {
        self.files.contains_key(path)
    }

    fn found(&self, path: &str) -> Found {
        match self.files.get(path) {
            None => Found::Missing,
            Some((data, mtime)) => Found::File {
                mtime: *mtime,
                len: data.len() as u64,
                data: data.clone(),
            },
        }
    }

    fn stamp(&self, path: &str) -> Option<Stamp> {
        stamp_file(&self.found(path))
    }

    fn dofile(&self, target: &str) -> (Option<DoFile>, Vec<String>) {
        let present: Vec<String> = candidates(target)
            .into_iter()
            .map(|c| c.dofile_rel)
            .filter(|d| self.there(d))
            .collect();
        find(&self.root, target, &present)
    }

    fn buildable(&self, path: &str) -> bool {
        is_target(
            self.there(path),
            self.store.is_generated(path),
            self.there(&format!("{path}.do")),
            self.dofile(path).0.is_some(),
        )
    }

    fn csum(&mut self, path: &str) -> Option<String> {
        let meta = self.files.get(path).map(|(data, mtime)| Meta {
            mtime: *mtime,
            len: data.len() as u64,
            dir: false,
        });
        match current_csum(&meta, &self.store.files_stamp(path)) {
            CsumStep::Missing => None,
            CsumStep::Trusted(c) => Some(c),
            CsumStep::Read => {
                let data = self.files[path].0.clone();
                let (c, op) = fresh_csum(path, &meta.unwrap(), &data);
                self.store.apply(&op);
                Some(c)
            }
        }
    }

    fn apply(&mut self, ops: &[DbOp]) {
        self.store.apply_all(ops);
    }

    /// Whether a target must be built, and whether edges were inserted.
    fn must_rebuild(&mut self, target: &str, chain: &[String]) -> (bool, bool) {
        let row = self.store.files_row(target);
        let deps = self.store.read_deps(target);
        let flags: Vec<bool> = deps
            .iter()
            .map(|d| {
                d.kind == DepKind::IfChange && self.buildable(d.dep.as_deref().unwrap_or(""))
            })
            .collect();
        let plan = check_plan(&row, self.there(target), &deps, &flags);
        let mut answers: Vec<Answer> = Vec::new();
        loop {
            let at = match check_recorded(&plan, &answers) {
                Verdict::Ask(i) => i,
                v => return (v == Verdict::Rebuild, edges_inserted(&answers)),
            };
            let edge = |dep: &str| EdgeRef {
                owner: ME.into(),
                waiter: target.to_ascii_lowercase(),
                dep: dep.to_ascii_lowercase(),
            };
            let a = match &plan[at] {
                Item::Activate { deps, .. } => Answer::Activated(vec![true; deps.len()]),
                Item::DoFile { dep, .. } | Item::Source { dep, .. } | Item::Dep { dep, .. } => {
                    Answer::Csum(self.csum(dep))
                }
                Item::IfCreate { dep } => Answer::Exists(self.there(dep)),
                Item::Edges { deps } => Answer::Edges(try_soft_batch(
                    &mut self.graph,
                    ME,
                    target,
                    deps,
                    EdgeKind::Checker,
                    &[],
                )),
                Item::Wait { dep } => match self.ensure(dep, false, chain) {
                    Ok(()) => Answer::Waited(Waited::Done),
                    Err(e) => Answer::Waited(Waited::SoftFailed(e)),
                },
                Item::Guard { dep } => Answer::Alive(edge_alive(&self.graph, &edge(dep))),
            };
            answers.push(a);
        }
    }

    fn ensure(&mut self, target: &str, force: bool, chain: &[String]) -> Result<(), String> {
        let (mut w, mut step) = Work::begin(target, force, self.session);
        let mut error = Ok(());
        loop {
            let answer = match step {
                work::Step::ReadRun => work::Answer::Settled(self.store.file_runid(target)),
                work::Step::Check => {
                    let (rebuild, edges) = self.must_rebuild(target, chain);
                    work::Answer::Checked { rebuild: Some(rebuild), edges }
                }
                work::Step::Refresh => {
                    let _ = self.csum(target);
                    work::Answer::Done
                }
                work::Step::Apply(ops) => {
                    self.apply(&ops);
                    work::Answer::Done
                }
                work::Step::ClearEdges => {
                    clear_waiter(&mut self.graph, ME, target);
                    work::Answer::Done
                }
                work::Step::TakeToken => {
                    // Every process brings a token of its own.
                    let mut reg = Registry::new(Vec::new());
                    let mut jobs = Jobserver::init_local(1);
                    assert_eq!(reg.acquire_token(&mut jobs, None, None), TokenStep::Own);
                    work::Answer::Granted(TokenSrc::Own)
                }
                work::Step::Build => {
                    error = self.build(target, force, chain);
                    if error.is_ok() {
                        work::Answer::Done
                    } else {
                        work::Answer::Failed
                    }
                }
                work::Step::ReturnToken(src) => {
                    assert_eq!(src, TokenSrc::Own);
                    work::Answer::Done
                }
                work::Step::Settle(ok) => {
                    assert_eq!(ok, error.is_ok());
                    return error;
                }
            };
            step = w.next(answer);
        }
    }

    fn look(&self, target: &str) -> Option<Look> {
        self.files.get(target).map(|f| Look { dir: false, modified: Some(f.1) })
    }

    fn build(&mut self, target: &str, force: bool, chain: &[String]) -> Result<(), String> {
        let (mut b, mut step) = Build::begin(Job {
            target: target.to_string(),
            force,
            session: self.session,
            chain: chain.to_vec(),
            watched: false,
            abandonable: false,
            log: None,
        });
        let (df, absent) = self.dofile(target);
        let mut before: Option<Look> = None;
        let mut output: (Option<Vec<u8>>, Vec<u8>) = (None, Vec::new());
        let mut code = 0;
        let mut cleaned = true;
        loop {
            let answer = match step {
                steps::Step::TryLock => steps::Answer::Locked(true),
                steps::Step::ReadRun => steps::Answer::Settled(self.store.file_runid(target)),
                steps::Step::Look => steps::Answer::Found(Facts {
                    exists: self.there(target),
                    exists_as_file: self.there(target),
                    generated: self.store.is_generated(target),
                    exact_dofile: self.there(&format!("{target}.do")),
                    any_dofile: df.is_some(),
                    force,
                }),
                steps::Step::StampSource => steps::Answer::Stamped(self.stamp(target)),
                steps::Step::Apply(ops) => {
                    self.apply(&ops);
                    steps::Answer::Done
                }
                steps::Step::Guard => {
                    let problem = self.files.get(target).and_then(|f| {
                        let evidence = Evidence {
                            generated: self.store.is_generated(target),
                            recorded: self.store.files_row(target).flatten(),
                            current: hash_bytes(&f.0),
                            built_at: self.store.files_built_at(target),
                            modified: Some(f.1),
                        };
                        overwrite_problem(target, &evidence, self.clock)
                    });
                    steps::Answer::Guarded {
                        problem,
                        all: self.yes,
                        none: false,
                        demanded: true,
                        user_present: false,
                    }
                }
                steps::Step::Overwriting(_) => steps::Answer::Done,
                steps::Step::StampRule => {
                    let dofile = df.as_ref().unwrap().dofile_rel.clone();
                    let stamp = self.stamp(&dofile);
                    steps::Answer::Rule { dofile, stamp, absent: absent.clone() }
                }
                steps::Step::Prepare => {
                    let temp = temp_output(&df.as_ref().unwrap().arg_target, 42);
                    assert!(temp.ends_with(".redo-tmp.42"));
                    before = self.look(target);
                    cleaned = false;
                    steps::Answer::Done
                }
                steps::Step::Launch => {
                    let mut inner = chain.to_vec();
                    inner.push(target.to_string());
                    let (out, stdout, exit) = self.run(target, df.as_ref().unwrap(), &inner);
                    output = (out, stdout);
                    code = exit;
                    steps::Answer::Done
                }
                steps::Step::Await(_) => steps::Answer::Ran(Ran {
                    before,
                    after: self.look(target),
                    code: Some(code),
                    temp_exists: output.0.is_some(),
                    captured: output.1.len() as u64,
                }),
                steps::Step::Place(from) => {
                    match from {
                        Output::Temp => self.put(target, &output.0.take().unwrap()),
                        Output::Captured => {
                            let data = output.1.clone();
                            self.put(target, &data);
                        }
                        Output::Phony => {
                            self.files.remove(target);
                        }
                    }
                    steps::Answer::Done
                }
                steps::Step::StampOutput => {
                    steps::Answer::Produced { stamp: self.stamp(target), now: self.clock }
                }
                steps::Step::Clean => {
                    cleaned = true;
                    steps::Answer::Done
                }
                steps::Step::End(end) => {
                    assert!(cleaned);
                    return match end {
                        steps::End::Built | steps::End::Skipped | steps::End::Source => Ok(()),
                        steps::End::Failed(e) => Err(e.message()),
                        other => panic!("{other:?}"),
                    };
                }
                other => panic!("{other:?}"),
            };
            step = b.next(answer);
        }
    }

    fn run(&mut self, target: &str, df: &DoFile, chain: &[String]) -> (Option<Vec<u8>>, Vec<u8>, i32) {
        let dir = df.dodir_abs.copy();
        let mut out: Option<Vec<u8>> = None;
        let mut stdout: Vec<u8> = Vec::new();
        let in_dir = |s: &str| {
            normalize_target(&Root { dir: FsPath::parse("/proj") }, &dir, s).unwrap()
        };
        for step in self.rules[&df.dofile_rel].clone() {
            match step {
                Step::IfChange(deps) => {
                    if let Err(e) = self.ifchange(Some(target), &dir, &deps, chain) {
                        self.stderr += &format!("redo-ifchange: {e}\n");
                        return (out, stdout, 1);
                    }
                }
                Step::IfCreate(deps) => {
                    let items: Vec<Awaited> = deps
                        .iter()
                        .map(|d| Awaited { dep: in_dir(d), exists: self.there(&in_dir(d)) })
                        .collect();
                    let (ops, err) = ifcreate(&Some(target.to_string()), &items);
                    self.apply(&ops);
                    if err.is_some() {
                        return (out, stdout, 1);
                    }
                }
                Step::Always => {
                    let op = always(&Some(target.to_string())).unwrap();
                    self.store.apply(&op);
                }
                Step::Text(s) => out = Some(s.into_bytes()),
                Step::Copy(s) => {
                    let mut data = out.unwrap_or_default();
                    data.extend(self.files[&in_dir(&s)].0.clone());
                    out = Some(data);
                }
                Step::TextOfArg => out = Some(df.arg_target.clone().into_bytes()),
                Step::Stdout(s) => stdout.extend(s.into_bytes()),
                Step::Args(a, b) => {
                    self.write(&in_dir(&a), &df.arg_target.clone());
                    self.write(&in_dir(&b), &df.arg_base.clone());
                }
                Step::Log(s) => {
                    let path = in_dir(&s);
                    let mut data = self.files.get(&path).map_or(Vec::new(), |f| f.0.clone());
                    data.extend(b"r\n");
                    self.put(&path, &data);
                }
                Step::Fail(code) => return (out, stdout, code),
            }
        }
        (out, stdout, 0)
    }

    fn ifchange(
        &mut self,
        parent: Option<&str>,
        cwd: &FsPath,
        inputs: &[String],
        chain: &[String],
    ) -> Result<(), String> {
        let mut items: Vec<Wanted> = Vec::new();
        for i in inputs {
            let dep = normalize_target(&self.root, cwd, i).map_err(|e| e.message())?;
            let (buildable, exists) = (self.buildable(&dep), self.there(&dep));
            items.push(Wanted { dep, buildable, exists });
        }
        let (mut k, mut step) =
            asking::Asking::begin(parent.map(|s| s.to_string()), self.session, &items)
                .map_err(|e| e.message())?;
        let mut error: Result<(), String> = Ok(());
        loop {
            let answer = match step {
                asking::Step::Stamp(keys) => {
                    asking::Answer::Stamps(keys.iter().map(|s| self.stamp(s)).collect())
                }
                asking::Step::Apply(ops) => {
                    self.apply(&ops);
                    asking::Answer::Done
                }
                asking::Step::DemandAll(deps) => {
                    let p = parent.unwrap();
                    asking::Answer::Inserted(try_demand_batch(&mut self.graph, ME, p, &deps))
                }
                asking::Step::Demand(dep) => {
                    error = self.demand(parent.unwrap(), &dep, chain);
                    if error.is_ok() {
                        asking::Answer::Done
                    } else {
                        asking::Answer::Failed
                    }
                }
                asking::Step::Ensure(targets) => {
                    for t in &targets {
                        let r = self.ensure(t, false, chain);
                        if error.is_ok() {
                            error = r;
                        }
                    }
                    if error.is_ok() {
                        asking::Answer::Done
                    } else {
                        asking::Answer::Failed
                    }
                }
                asking::Step::Drain => asking::Answer::Done,
                asking::Step::ClearEdges => {
                    clear_waiter(&mut self.graph, ME, parent.unwrap());
                    asking::Answer::Done
                }
                asking::Step::End(ok) => {
                    assert_eq!(ok, error.is_ok());
                    return error;
                }
            };
            step = k.next(answer);
        }
    }

    fn demand(&mut self, parent: &str, dep: &str, chain: &[String]) -> Result<(), String> {
        let mut d = Demand::new();
        loop {
            let o = try_demand(&mut self.graph, ME, parent, dep);
            match d.observe(o) {
                DemandStep::Done => return Ok(()),
                DemandStep::Retry | DemandStep::Collect | DemandStep::Pause => {}
                DemandStep::Cycle => return Err(cycle_error(chain, parent, dep).message()),
            }
        }
    }

    /// `redo-msh ifchange` from outside a do-file.
    fn update(&mut self, deps: &[&str]) -> Result<(), String> {
        self.session = self.store.next_runid();
        let deps: Vec<String> = deps.iter().map(|s| s.to_string()).collect();
        let cwd = self.root.dir.copy();
        self.ifchange(None, &cwd, &deps, &[])
    }

    /// `redo`.
    fn redo(&mut self, names: &[&str]) -> Result<(), String> {
        self.session = self.store.next_runid();
        let names: Vec<String> = names.iter().map(|s| s.to_string()).collect();
        for t in distinct_targets(&names) {
            self.ensure(&t, true, &[])?;
        }
        Ok(())
    }

    fn ood(&mut self) -> Vec<String> {
        let mut out = Vec::new();
        for t in targets(&self.store) {
            let now: Vec<Now> = self
                .store
                .read_deps(&t)
                .iter()
                .map(|d| {
                    let dep = d.dep.clone().unwrap_or_default();
                    Now { exists: self.there(&dep), csum: self.stamp(&dep).map(|s| s.csum) }
                })
                .collect();
            if is_ood_static(&self.store, &t, self.there(&t), &now) {
                out.push(t);
            }
        }
        out
    }
}

#[test]
fn deps_and_incremental() {
    let mut p = Project::new();
    p.write("a.txt", "alpha\n");
    p.write("b.txt", "beta\n");
    p.rule(
        "app.txt.do",
        &[log("app.log"), on(&["a.txt", "b.txt"]), copy("a.txt"), copy("b.txt")],
    );

    assert!(p.update(&["app.txt"]).is_ok());
    assert_eq!(p.read("app.txt"), "alpha\nbeta\n");
    assert_eq!(p.lines("app.log"), 1);

    // No-op: nothing changed -> no rebuild.
    assert!(p.update(&["app.txt"]).is_ok());
    assert_eq!(p.lines("app.log"), 1);

    // Edit a source -> rebuild, new content.
    p.write("a.txt", "ALPHA\n");
    assert!(p.update(&["app.txt"]).is_ok());
    assert_eq!(p.lines("app.log"), 2);
    assert_eq!(p.read("app.txt"), "ALPHA\nbeta\n");
}

#[test]
fn identical_rebuild_prunes_downstream() {
    let mut p = Project::new();
    p.write("a.txt", "v1\n");
    p.rule("gen.txt.do", &[log("gen.log"), on(&["a.txt"]), text("GEN")]);
    p.rule("app.txt.do", &[log("app.log"), on(&["gen.txt"]), copy("gen.txt")]);

    assert!(p.update(&["app.txt"]).is_ok());
    assert_eq!(p.lines("gen.log"), 1);
    assert_eq!(p.lines("app.log"), 1);

    // Change a.txt: gen rebuilds, but its output is identical -> app stays.
    p.write("a.txt", "v2\n");
    assert!(p.update(&["app.txt"]).is_ok());
    assert_eq!(p.lines("gen.log"), 2, "gen should rebuild");
    assert_eq!(p.lines("app.log"), 1, "app must NOT rebuild on identical gen output");
}

#[test]
fn touch_does_not_rebuild() {
    let mut p = Project::new();
    p.write("a.txt", "data\n");
    p.rule("out.txt.do", &[log("out.log"), on(&["a.txt"]), copy("a.txt")]);
    assert!(p.update(&["out.txt"]).is_ok());
    assert_eq!(p.lines("out.log"), 1);

    p.write("a.txt", "data\n"); // identical content, new mtime
    assert!(p.update(&["out.txt"]).is_ok());
    assert_eq!(p.lines("out.log"), 1, "identical content must not rebuild");
}

#[test]
fn defaults_and_ifcreate() {
    let mut p = Project::new();
    p.rule("default.dat.do", &[log("dat.log"), Step::Stdout("from-default\n".into())]);
    p.rule("driver.do", &[on(&["foo.dat"])]);

    assert!(p.update(&["driver"]).is_ok());
    assert_eq!(p.read("foo.dat"), "from-default\n");
    assert_eq!(p.lines("dat.log"), 1);

    // No-op.
    assert!(p.update(&["driver"]).is_ok());
    assert_eq!(p.lines("dat.log"), 1);

    // Creating a specific foo.dat.do invalidates foo.dat (ifcreate fired).
    p.rule("foo.dat.do", &[log("dat.log"), Step::Stdout("from-specific\n".into())]);
    assert!(p.update(&["driver"]).is_ok());
    assert_eq!(p.read("foo.dat"), "from-specific\n");
    assert_eq!(p.lines("dat.log"), 2);
}

#[test]
fn always_rebuilds() {
    let mut p = Project::new();
    p.rule("stamp.do", &[Step::Always, log("stamp.log"), Step::Stdout("v\n".into())]);
    p.rule("top.do", &[on(&["stamp"])]);
    for expected in 1..=3 {
        assert!(p.update(&["top"]).is_ok());
        assert_eq!(p.lines("stamp.log"), expected);
    }
}

#[test]
fn cycle_errors_without_hang() {
    let mut p = Project::new();
    p.rule("a.do", &[on(&["b"]), Step::Stdout("a\n".into())]);
    p.rule("b.do", &[on(&["a"]), Step::Stdout("b\n".into())]);
    assert!(p.redo(&["a"]).is_err(), "cycle must fail");
    assert!(p.stderr.contains("cycle"), "expected a cycle error, got: {}", p.stderr);
    assert!(p.stderr.contains("redo-ifchange: dependency cycle detected: a -> b -> a\n"));
    // The demands of both requests have left the graph.
    assert!(p.graph.edges().is_empty());
}

#[test]
fn phony_target() {
    let mut p = Project::new();
    p.write("a.txt", "x\n");
    p.rule("real.txt.do", &[copy("a.txt")]);
    p.rule("all.do", &[on(&["real.txt"])]);
    assert!(p.redo(&["all"]).is_ok());
    assert!(p.there("real.txt"));
    assert!(!p.there("all"), "phony target must not create a file");
    assert!(p.ood().is_empty());
}

#[test]
fn stdout_and_dollar3_is_error() {
    let mut p = Project::new();
    p.rule("bad.txt.do", &[text("to3\n"), Step::Stdout("toStdout\n".into())]);
    let err = p.redo(&["bad.txt"]).unwrap_err();
    assert!(err.contains("stdout") && err.contains("$3"), "got: {err}");
}

#[test]
fn parallel_diamond_builds_shared_once() {
    let mut p = Project::new();
    p.rule("gen.txt.do", &[log("gen.log"), text("GEN")]);
    let leaves: Vec<String> = (1..=6).map(|i| format!("leaf{i}.txt")).collect();
    for l in &leaves {
        p.rule(&format!("{l}.do"), &[on(&["gen.txt"]), copy("gen.txt")]);
    }
    p.rule("all.do", &[Step::IfChange(leaves.clone())]);
    assert!(p.redo(&["all"]).is_ok());
    assert_eq!(p.lines("gen.log"), 1, "shared gen must build exactly once");
    for l in &leaves {
        assert!(p.there(l));
    }
    // However many demand it, and in whatever case, there is one task.
    let mut reg = Registry::new(Vec::new());
    let names: Vec<String> = vec!["gen.txt".into(), "GEN.txt".into(), "gen.TXT".into()];
    let (_, claims) = ensure_all(&mut reg, &names, true);
    assert_eq!(claims.iter().filter(|c| c.fresh).count(), 1);
    reg.settle(0, None::<Failure>);
}

#[test]
fn manual_edit_protected() {
    let mut p = Project::new();
    p.write("a.txt", "src\n");
    p.rule("out.txt.do", &[on(&["a.txt"]), copy("a.txt")]);
    assert!(p.redo(&["out.txt"]).is_ok());

    p.write("out.txt", "HAND\n");
    // Nobody to ask, no --yes: must refuse and preserve the edit.
    assert!(p.redo(&["out.txt"]).is_err());
    assert_eq!(p.read("out.txt"), "HAND\n");

    // --yes overwrites.
    p.yes = true;
    assert!(p.redo(&["out.txt"]).is_ok());
    assert_eq!(p.read("out.txt"), "src\n");
}

#[test]
fn introspection() {
    let mut p = Project::new();
    p.write("a.txt", "1\n");
    p.rule("out.txt.do", &[on(&["a.txt"]), copy("a.txt")]);
    assert!(p.redo(&["out.txt"]).is_ok());

    assert!(sources(&p.store).iter().any(|l| l == "a.txt"));
    assert!(targets(&p.store).iter().any(|l| l == "out.txt"));

    // Up to date -> no ood output.
    assert!(p.ood().is_empty());

    // Change the source -> out.txt becomes ood (without building).
    p.write("a.txt", "2\n");
    assert!(p.ood().iter().any(|l| l == "out.txt"));

    assert_eq!(roots(&p.store), vec!["out.txt"]);
    assert_eq!(
        cmd_tree(&p.store, &roots(&p.store)),
        vec!["out.txt [out.txt.do]", "└── a.txt (source)"]
    );
}

#[test]
fn args_passed_to_dofile() {
    let mut p = Project::new();
    p.rule("default.args.do", &[Step::Args("got1".into(), "got2".into())]);
    assert!(p.redo(&["foo.args"]).is_ok());
    assert_eq!(p.read("got1"), "foo.args");
    assert_eq!(p.read("got2"), "foo", "default.*.do strips the matched extension for $2");

    // An exact do-file: $2 == $1.
    p.rule("bar.args.do", &[Step::Args("egot1".into(), "egot2".into())]);
    assert!(p.redo(&["bar.args"]).is_ok());
    assert_eq!(p.read("egot1"), "bar.args");
    assert_eq!(p.read("egot2"), "bar.args", "exact name.do gives $2 == $1");
}

#[test]
fn zero_byte_vs_no_output() {
    let mut p = Project::new();
    p.rule("empty.txt.do", &[text("")]);
    assert!(p.redo(&["empty.txt"]).is_ok());
    assert!(p.there("empty.txt"), "an explicit zero-byte $3 must create the file");
    assert_eq!(p.read("empty.txt"), "");

    p.rule("nofile.do", &[log("nofile.log")]);
    assert!(p.redo(&["nofile"]).is_ok());
    assert!(!p.there("nofile"), "no output must not create a file");
}

#[test]
fn rebuild_when_target_deleted() {
    let mut p = Project::new();
    p.rule("out.txt.do", &[log("out.log"), text("hi\n")]);
    assert!(p.update(&["out.txt"]).is_ok());
    assert_eq!(p.lines("out.log"), 1);
    assert_eq!(p.read("out.txt"), "hi\n");

    p.files.remove("out.txt");
    assert!(p.update(&["out.txt"]).is_ok());
    assert_eq!(p.lines("out.log"), 2, "deleted target must be rebuilt");
    assert_eq!(p.read("out.txt"), "hi\n");
}

#[test]
fn unicode_paths() {
    let mut p = Project::new();
    p.rule("café.txt.do", &[text("é\n")]);
    assert!(p.redo(&["café.txt"]).is_ok());
    assert_eq!(p.read("café.txt"), "é\n");
}

#[test]
fn spaces_in_paths() {
    let mut p = Project::new();
    p.rule("space dir/out.txt.do", &[text("x\n")]);
    assert!(p.redo(&["space dir/out.txt"]).is_ok());
    assert_eq!(p.read("space dir/out.txt"), "x\n");
}

#[test]
fn default_extension_precedence() {
    let mut p = Project::new();
    p.rule("default.c.do", &[text("c-rule\n")]);
    p.rule("default.do", &[text("any-rule\n")]);
    assert!(p.redo(&["x.c"]).is_ok());
    assert_eq!(p.read("x.c"), "c-rule\n", "x.c should use default.c.do");
    assert!(p.redo(&["y.q"]).is_ok());
    assert_eq!(p.read("y.q"), "any-rule\n", "y.q should fall back to default.do");
}

#[test]
fn nested_default_resolution() {
    let mut p = Project::new();
    p.rule("a/default.z.do", &[text("az\n")]);
    p.rule("default.do", &[Step::TextOfArg]);

    assert!(p.redo(&["a/file.z"]).is_ok());
    assert_eq!(p.read("a/file.z"), "az\n", "a/file.z should use a/default.z.do");

    assert!(p.redo(&["a/file"]).is_ok());
    assert_eq!(p.read("a/file"), "a/file", "root default.do sees $1 = a/file");
}

#[test]
fn default_does_not_cross_dirs() {
    let mut p = Project::new();
    p.rule("inner/default.do", &[text("in\n")]);
    assert!(p.redo(&["inner/foo"]).is_ok());
    assert_eq!(p.read("inner/foo"), "in\n");
    // x/foo has no do-file anywhere; inner/default.do must not apply.
    assert!(p.redo(&["x/foo"]).is_err(), "inner/default.do must not build x/foo");
}

#[test]
fn failing_dofile_and_missing_dep() {
    let mut p = Project::new();
    p.rule("boom.do", &[on(&["no-such-dep"])]);
    assert!(p.redo(&["boom"]).is_err(), "failing do-file must fail the build");
    assert_eq!(
        p.update(&["no-such-dep"]).unwrap_err(),
        "no .do file and no source file for dependency \"no-such-dep\""
    );
    p.rule("ic.do", &[Step::IfCreate(vec!["notyet".into()]), log("ic.log")]);
    assert!(p.redo(&["ic"]).is_ok(), "ifcreate of a nonexistent path should succeed");
}

#[test]
fn ifcreate_marks_ood_when_created() {
    let mut p = Project::new();
    p.rule("t.do", &[Step::IfCreate(vec!["marker".into()]), log("t.log")]);
    assert!(p.redo(&["t"]).is_ok());
    assert_eq!(p.lines("t.log"), 1);
    assert!(!p.ood().iter().any(|l| l == "t"), "t must not be ood while marker is absent");

    // Creating the ifcreate path makes the target out-of-date.
    p.write("marker", "x\n");
    assert!(p.ood().iter().any(|l| l == "t"), "creating an ifcreate path must make t ood");
}

#[test]
fn dofile_creates_target_subdir() {
    let mut p = Project::new();
    p.rule("default.txt.do", &[text("hi\n")]);
    assert!(p.redo(&["sub/deep/x.txt"]).is_ok());
    assert_eq!(p.read("sub/deep/x.txt"), "hi\n");
}

#[test]
fn shared_static_dep_rebuilds_all() {
    let mut p = Project::new();
    p.write("static.in", "1\n");
    for n in [1, 2] {
        p.rule(
            &format!("s{n}.txt.do"),
            &[on(&["static.in"]), log("s.log"), copy("static.in")],
        );
    }
    assert!(p.update(&["s1.txt", "s2.txt"]).is_ok());
    assert_eq!(p.lines("s.log"), 2);

    p.write("static.in", "2\n");
    assert!(p.update(&["s1.txt", "s2.txt"]).is_ok());
    assert_eq!(p.lines("s.log"), 4, "both dependents must rebuild when shared source changes");
}

#[test]
fn cross_dir_relative_dependency() {
    let mut p = Project::new();
    p.rule("top.txt.do", &[log("top.log"), text("top\n")]);
    p.rule("sub/leaf.do", &[on(&["../top.txt"]), log("leaf.log")]);

    assert!(p.update(&["sub/leaf"]).is_ok());
    assert_eq!(p.lines("top.log"), 1, "top.txt built once");
    assert_eq!(p.lines("sub/leaf.log"), 1);

    // No change -> nothing rebuilds.
    assert!(p.update(&["sub/leaf"]).is_ok());
    assert_eq!(p.lines("top.log"), 1);
    assert_eq!(p.lines("sub/leaf.log"), 1);

    // Change top's recipe -> top rebuilds, and leaf (which depends on
    // ../top.txt) rebuilds too.
    p.rule("top.txt.do", &[log("top.log"), text("TOP\n")]);
    assert!(p.update(&["sub/leaf"]).is_ok());
    assert_eq!(p.lines("top.log"), 2, "top rebuilt after recipe change");
    assert_eq!(p.lines("sub/leaf.log"), 2, "leaf must rebuild when its ../ dependency changes");
}

#[test]
fn sh_dofiles_via_config_and_forwarders() {
    let sh = || Some(Section { default: Some(vec!["sh".into(), "-e".into()]), rules: vec![] });
    let c = Config {
        platform: Platforms { linux: sh(), wsl: sh(), windows: None, macos: sh() },
        ..Config::default()
    };
    assert_eq!(c.interpreter(Platform::Linux, "all.do"), vec!["sh", "-e"]);
    // Bare `redo` with no targets builds `all`.
    assert_eq!(
        run_forward(None, &[]).unwrap().command,
        Command::Build { targets: vec!["all".into()], jobs: 1 }
    );
    let mut p = Project::new();
    p.rule("all.do", &[on(&["greeting.txt"])]);
    p.rule("greeting.txt.do", &[on(&["name.txt"]), text("hello, "), copy("name.txt")]);
    p.write("name.txt", "world\n");
    assert!(p.redo(&["all"]).is_ok());
    assert_eq!(p.read("greeting.txt"), "hello, world\n");
    assert!(p.ood().is_empty(), "nothing should be ood");
    p.write("name.txt", "redo\n");
    assert!(p.update(&["greeting.txt"]).is_ok());
    assert_eq!(p.read("greeting.txt"), "hello, redo\n");
}

#[test]
fn sh_dofile_failure_propagates() {
    let mut p = Project::new();
    p.rule(
        "out.txt.do",
        &[on(&["missing-source"]), Step::Stdout("should-not-happen\n".into())],
    );
    assert!(p.redo(&["out.txt"]).is_err(), "build should fail on missing dep");
    assert!(!p.there("out.txt"), "no output on failed build");
    // The failed build left its marker: the target is out of date.
    let marked = p.store.read_deps("out.txt");
    assert!(marked.iter().any(|d| d.kind == DepKind::Uncommitted));
}

#[test]
fn all_commands_have_help_and_version() {
    let cmds: [(&str, Option<&str>, &str); 5] = [
        ("redo", None, "build targets"),
        ("redo-ifchange", Some("ifchange"), "build dependencies"),
        ("redo-ifcreate", Some("ifcreate"), "NOT existing"),
        ("redo-always", Some("always"), "always out of date"),
        ("redo-stamp", Some("stamp"), "drain standard input"),
    ];
    for (prog, verb, needle) in cmds {
        for flag in ["-h", "--help"] {
            assert_eq!(run_forward(verb, &[flag.to_string()]).unwrap().command, Command::Help);
        }
        let s = forward_usage(verb, "0.1.0");
        assert!(s.contains(needle), "{prog} help missing {needle:?}:\n{s}");
        assert!(s.contains("-h, --help"), "{prog} should document --help");
        assert!(s.starts_with(&format!("{prog} 0.1.0")));
        assert_eq!(run_forward(verb, &["--version".to_string()]).unwrap().command, Command::Version);
    }
    for flag in ["-h", "--help"] {
        assert_eq!(run(&[flag.to_string()]).unwrap().command, Command::Help);
    }
    let s = usage("0.1.0");
    assert!(s.contains("cross-platform") && s.contains("-h, --help"));
    assert_eq!(run(&["--version".to_string()]).unwrap().command, Command::Version);
}

#[test]
fn a_failed_build_stays_out_of_date() {
    let mut p = Project::new();
    p.write("a.txt", "x\n");
    p.rule("out.txt.do", &[on(&["a.txt"]), copy("a.txt")]);
    assert!(p.redo(&["out.txt"]).is_ok());
    assert!(p.ood().is_empty());
    p.rule("out.txt.do", &[on(&["a.txt"]), Step::Fail(3)]);
    assert_eq!(p.redo(&["out.txt"]).unwrap_err(), "do-file for out.txt failed (exit 3)");
    // The old output and fresh edges are there, but the build never committed.
    assert_eq!(p.ood(), vec!["out.txt"]);
    p.rule("out.txt.do", &[on(&["a.txt"]), copy("a.txt")]);
    assert!(p.update(&["out.txt"]).is_ok());
    assert!(p.ood().is_empty());
}

#[test]
fn a_source_is_not_built_by_a_default() {
    let mut p = Project::new();
    p.write("data.csv", "1,2\n");
    p.rule("default.csv.do", &[text("generated\n")]);
    p.rule("all.do", &[on(&["data.csv"])]);
    assert!(p.redo(&["all"]).is_ok());
    assert_eq!(p.read("data.csv"), "1,2\n");
    assert!(sources(&p.store).contains(&"data.csv".to_string()));
    // Naming it explicitly is unambiguous, and the guard protects the file.
    assert!(p.redo(&["data.csv"]).is_err());
    assert_eq!(p.read("data.csv"), "1,2\n");
}

#[test]
fn trees_refer_to_what_they_showed() {
    let mut p = Project::new();
    p.rule("all.do", &[on(&["a", "b"])]);
    p.rule("a.do", &[on(&["c"]), text("a")]);
    p.rule("b.do", &[on(&["c"]), Step::IfCreate(vec!["n".into()]), text("b")]);
    p.rule("c.do", &[Step::Always, text("c")]);
    assert!(p.redo(&["all"]).is_ok());
    assert_eq!(
        cmd_tree(&p.store, &roots(&p.store)),
        vec![
            "all [all.do] (2 deps: parallel width up to 2)",
            "├── a [a.do]",
            "│   └── c [c.do]",
            "│       └── (always: rebuilt every run)",
            "└── b [b.do]",
            "    ├── c (shown above)",
            "    └── n (must stay absent)",
        ]
    );
    assert_eq!(
        cmd_tree(&p.store, &["nope".to_string(), "c".to_string()]),
        vec![
            "nope (nothing recorded: never built by redo)",
            "",
            "c [c.do]",
            "└── (always: rebuilt every run)",
        ]
    );
}
