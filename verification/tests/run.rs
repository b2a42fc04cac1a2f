use rarmerge::discovery::{ArchiveFile, Node};
use rarmerge::merger::{Entry, EntryKind, FileFault, MergeOutcome, MoveStage};
use rarmerge::pipeline::{plan, Pipeline, Stop};
use rarmerge::protocol::{Action, Phase, Reply};
use rarmerge::report::{ArchiveFault, Outcome, Record};
use rarmerge::tool::{ToolFailure, ToolOutput};
use std::collections::{BTreeMap, BTreeSet};

/// What the decompression tool makes of a file with a given content.
type Pack = Option<Vec<(&'static str, EntryKind, &'static str)>>;

/// A file system and a decompression tool, both in memory.
struct Sim {
    files: BTreeMap<String, String>,
    dirs: BTreeSet<String>,
    listings: BTreeMap<String, Vec<Entry>>,
    packs: BTreeMap<String, Pack>,
    tool_installed: bool,
    install_works: bool,
    refuse: BTreeSet<String>,
    asked: Vec<Action>,
}

fn sim() -> Sim {
    let mut dirs = BTreeSet::new();
    dirs.insert("/data".to_string());
    dirs.insert("/data/in".to_string());
    Sim {
        files: BTreeMap::new(),
        dirs,
        listings: BTreeMap::new(),
        packs: BTreeMap::new(),
        tool_installed: true,
        install_works: true,
        refuse: BTreeSet::new(),
        asked: Vec::new(),
    }
}

fn exited(code: i32, stderr: &str) -> Reply {
    Reply::Exited(ToolOutput {
        code: Some(code),
        stdout: String::new(),
        stderr: stderr.to_string(),
    })
}

impl Sim {
    fn put(&mut self, path: &str, content: &str) {
        self.files.insert(path.to_string(), content.to_string());
    }

    fn pack(&mut self, content: &str, pack: Pack) {
        self.packs.insert(content.to_string(), pack);
    }

    fn refuse(&mut self, what: &str, path: &str) {
        self.refuse.insert(format!("{} {}", what, path));
    }

    fn refused(&self, what: &str, path: &str) -> bool {
        self.refuse.contains(&format!("{} {}", what, path))
    }

    fn under(&self, dir: &str) -> Vec<String> {
        let prefix = format!("{}/", dir);
        self.files.keys().filter(|path| path.starts_with(&prefix)).cloned().collect()
    }

    fn unpack(&mut self, archive: &str, staging: &str) -> Reply {
        let content = match self.files.get(archive) {
            Some(content) => content.clone(),
            None => return exited(2, "no such archive"),
        };
        let items = match self.packs.get(&content) {
            Some(Some(items)) => items.clone(),
            _ => return exited(2, "cannot open the file as archive"),
        };
        if !self.dirs.contains(staging) {
            return exited(2, "no such directory");
        }
        let mut listing = Vec::new();
        for (name, kind, content) in items {
            let path = format!("{}/{}", staging, name);
            match kind {
                EntryKind::File => {
                    self.files.insert(path, content.to_string());
                }
                EntryKind::Directory => {
                    self.dirs.insert(path);
                }
            }
            listing.push(Entry { name: name.to_string(), kind });
        }
        self.listings.insert(staging.to_string(), listing);
        exited(0, "")
    }

    fn perform(&mut self, action: &Action) -> Reply {
        self.asked.push(action.clone());
        let done = |ok: bool| if ok { Reply::Succeeded } else { Reply::Failed };
        match action {
            Action::Locate { path } => {
                assert_eq!(path, "/usr/bin/7z");
                done(self.tool_installed)
            }
            Action::Run { command } => {
                if command.program == "pacman" {
                    return if self.install_works { exited(0, "") } else { exited(1, "no network") };
                }
                assert_eq!(command.program, "7z");
                assert_eq!(command.args.len(), 4);
                assert_eq!(command.args[0], "-y");
                assert_eq!(command.args[2], "x");
                let staging = command.args[1].strip_prefix("-o").unwrap().to_string();
                let archive = command.args[3].clone();
                assert!(archive.starts_with(&format!("{}/", command.working_dir)));
                self.unpack(&archive, &staging)
            }
            Action::CreateDir { path } => {
                if self.dirs.contains(path) || self.files.contains_key(path) {
                    return Reply::Failed;
                }
                self.dirs.insert(path.clone());
                Reply::Succeeded
            }
            Action::List { path } => {
                if self.refused("list", path) {
                    return Reply::Failed;
                }
                Reply::Listed(self.listings.get(path).cloned().unwrap_or_default())
            }
            Action::Skip { path } => {
                assert!(self.dirs.contains(path));
                Reply::Succeeded
            }
            Action::Rename { from, to } => {
                if self.refused("rename", from) {
                    return Reply::Failed;
                }
                let content = self.files.remove(from).unwrap();
                self.files.insert(to.clone(), content);
                Reply::Succeeded
            }
            Action::Copy { from, to } => {
                if self.refused("copy", from) {
                    return Reply::Failed;
                }
                let content = self.files.get(from).unwrap().clone();
                self.files.insert(to.clone(), content);
                Reply::Succeeded
            }
            Action::Delete { path } => {
                if self.refused("delete", path) {
                    return Reply::Failed;
                }
                self.files.remove(path).unwrap();
                Reply::Succeeded
            }
            Action::RemoveTree { path } => {
                if self.refused("remove", path) {
                    return Reply::Failed;
                }
                assert!(self.dirs.contains(path));
                let prefix = format!("{}/", path);
                self.files.retain(|file, _| !file.starts_with(&prefix));
                self.dirs.retain(|dir| dir != path && !dir.starts_with(&prefix));
                Reply::Succeeded
            }
            Action::Done | Action::Abort => unreachable!(),
        }
    }
}

fn staging_name(number: usize) -> String {
    format!("stage{:05}", number)
}

/// Runs `pipeline` against `sim` to its end, with the staging names
/// `stage00000`, `stage00001`, and so on, one for each step.
fn drive(mut pipeline: Pipeline, sim: &mut Sim) -> Pipeline {
    let mut steps = 0;
    loop {
        let action = pipeline.pending();
        if action == Action::Done || action == Action::Abort {
            assert!(pipeline.ended());
            return pipeline;
        }
        assert!(!pipeline.ended());
        let reply = sim.perform(&action);
        pipeline = pipeline.step_with_name(reply, &staging_name(steps));
        steps += 1;
        assert!(steps < 1000);
    }
}

fn archive(name: &str) -> ArchiveFile {
    ArchiveFile { dir: "/data/in".to_string(), name: name.to_string() }
}

fn pipeline(names: &[&str]) -> Pipeline {
    Pipeline::new(
        "/data/in".to_string(),
        "/data".to_string(),
        names.iter().map(|name| archive(name)).collect(),
    )
}

fn record(subject: &str, outcome: Outcome) -> Record {
    Record { subject: subject.to_string(), outcome }
}

fn merged(subject: &str, outcome: MergeOutcome) -> Record {
    record(subject, Outcome::Merged(outcome))
}

fn file(name: &str) -> Node {
    Node::File { name: name.to_string() }
}

#[test]
fn missing_directory_stops_cleanly() {
    assert_eq!(plan("nonexistant_dir", None).err(), Some(Stop::PathNotFound));
}

#[test]
fn directory_without_archives_stops_cleanly() {
    let sub = Node::Dir { name: "sub".to_string(), children: vec![file("a.txt")] };
    let tree = vec![file("movie.mkv"), sub];
    assert_eq!(plan("/data/in", Some(&tree)).err(), Some(Stop::EmptyCorpus));
    assert_eq!(plan("/data/in", Some(&vec![])).err(), Some(Stop::EmptyCorpus));
}

#[test]
fn root_has_no_place_for_staging() {
    let tree = vec![file("a.rar")];
    assert_eq!(plan("/", Some(&tree)).err(), Some(Stop::NoParent));
    assert_eq!(plan("/", Some(&vec![])).err(), Some(Stop::EmptyCorpus));
}

#[test]
fn path_of_dots_does_not_tell_where_staging_goes() {
    let tree = vec![file("a.rar")];
    assert_eq!(plan(".", Some(&tree)).err(), Some(Stop::DottedRoot));
    assert_eq!(plan("./", Some(&tree)).err(), Some(Stop::DottedRoot));
    assert_eq!(plan("..", Some(&tree)).err(), Some(Stop::DottedRoot));
    assert_eq!(plan("/d/src/..", Some(&tree)).err(), Some(Stop::DottedRoot));
    assert_eq!(plan("/.", Some(&tree)).err(), Some(Stop::NoParent));
    assert_eq!(plan("", Some(&tree)).err(), Some(Stop::NoParent));
    assert_eq!(plan(".", Some(&vec![])).err(), Some(Stop::EmptyCorpus));
}

#[test]
fn trailing_dot_does_not_put_staging_into_the_directory() {
    let tree = vec![file("a.rar")];
    for root in ["/d/src/.", "/d/src/./", "/d/src/", "/d/src", "/d/./src/."] {
        let pipeline = plan(root, Some(&tree)).ok().unwrap();
        let pipeline = pipeline.step_with_name(Reply::Succeeded, "Ab3dE6gH9j");
        assert_eq!(pipeline.pending(), Action::CreateDir { path: "/d/Ab3dE6gH9j".to_string() });
    }
    let pipeline = plan("src/.", Some(&tree)).ok().unwrap();
    let pipeline = pipeline.step_with_name(Reply::Succeeded, "Ab3dE6gH9j");
    assert_eq!(pipeline.pending(), Action::CreateDir { path: "Ab3dE6gH9j".to_string() });
    let pipeline = plan("../src", Some(&tree)).ok().unwrap();
    let pipeline = pipeline.step_with_name(Reply::Succeeded, "Ab3dE6gH9j");
    assert_eq!(pipeline.pending(), Action::CreateDir { path: "../Ab3dE6gH9j".to_string() });
}

#[test]
fn nested_archive_gets_a_staging_directory_of_its_own() {
    let mut sim = sim();
    sim.put("/data/in/A.rar", "A");
    sim.pack(
        "A",
        Some(vec![("movie.mkv", EntryKind::File, "film"), ("B.rar", EntryKind::File, "B")]),
    );
    sim.pack("B", Some(vec![("readme.txt", EntryKind::File, "read me")]));
    let siblings_before = sim.under("/data");
    let dirs_before = sim.dirs.clone();
    drive(pipeline(&["A.rar"]), &mut sim);
    let made: Vec<String> = sim
        .asked
        .iter()
        .filter_map(|action| match action {
            Action::CreateDir { path } => Some(path.clone()),
            _ => None,
        })
        .collect();
    assert_eq!(made, vec!["/data/stage00000".to_string(), "/data/stage00004".to_string()]);
    assert!(!sim.dirs.contains("/data/stage00000"));
    assert!(!sim.dirs.contains("/data/stage00004"));
    assert_eq!(sim.dirs, dirs_before);
    let left: Vec<String> =
        sim.under("/data").into_iter().filter(|path| !path.starts_with("/data/in/")).collect();
    let before: Vec<String> =
        siblings_before.into_iter().filter(|path| !path.starts_with("/data/in/")).collect();
    assert_eq!(left, before);
}

#[test]
fn nested_archive_does_not_share_a_taken_name() {
    let mut sim = sim();
    sim.put("/data/in/A.rar", "A");
    sim.pack("A", Some(vec![("B.rar", EntryKind::File, "B"), ("a.txt", EntryKind::File, "a")]));
    sim.pack("B", Some(vec![("b.txt", EntryKind::File, "b")]));
    let mut run = pipeline(&["A.rar"]);
    let mut steps = 0;
    loop {
        let action = run.pending();
        if action == Action::Done {
            break;
        }
        let reply = sim.perform(&action);
        run = run.step_with_name(reply, "samename00");
        steps += 1;
        assert!(steps < 100);
    }
    assert_eq!(
        *run.report(),
        vec![
            record("/data/samename00/B.rar", Outcome::Failed(ArchiveFault::DirectoryCreate)),
            merged("/data/samename00/a.txt", MergeOutcome::Moved),
            record("/data/in/A.rar", Outcome::Unpacked),
        ]
    );
    assert_eq!(sim.files["/data/in/a.txt"], "a");
    assert!(!sim.files.contains_key("/data/in/b.txt"));
    assert!(!sim.dirs.contains("/data/samename00"));
}

#[test]
fn plan_starts_by_looking_for_the_tool() {
    let tree = vec![file("a.rar")];
    let pipeline = plan("/data/in", Some(&tree)).ok().unwrap();
    assert_eq!(pipeline.phase(), Phase::Locating);
    assert_eq!(pipeline.pending(), Action::Locate { path: "/usr/bin/7z".to_string() });
    assert!(pipeline.report().is_empty());
    assert!(!pipeline.ended());
}

#[test]
fn plan_puts_staging_beside_the_directory() {
    let tree = vec![Node::Dir { name: "sub".to_string(), children: vec![file("a.rar")] }];
    let pipeline = plan("/data/in/", Some(&tree)).ok().unwrap();
    let pipeline = pipeline.step_with_name(Reply::Succeeded, "Ab3dE6gH9j");
    assert_eq!(pipeline.pending(), Action::CreateDir { path: "/data/Ab3dE6gH9j".to_string() });
    let pipeline = pipeline.step_with_name(Reply::Succeeded, "unused0000");
    match pipeline.pending() {
        Action::Run { command } => {
            assert_eq!(command.program, "7z");
            assert_eq!(
                command.args,
                vec![
                    "-y".to_string(),
                    "-o/data/Ab3dE6gH9j".to_string(),
                    "x".to_string(),
                    "/data/in/sub/a.rar".to_string(),
                ]
            );
            assert_eq!(command.working_dir, "/data/in/sub");
        }
        other => panic!("unexpected action {:?}", other),
    }
}

#[test]
fn relative_directory_gets_relative_staging() {
    let tree = vec![file("a.rar")];
    let pipeline = plan("in", Some(&tree)).ok().unwrap();
    let pipeline = pipeline.step_with_name(Reply::Succeeded, "Ab3dE6gH9j");
    assert_eq!(pipeline.pending(), Action::CreateDir { path: "Ab3dE6gH9j".to_string() });
}

#[test]
fn files_of_an_archive_are_merged() {
    let mut sim = sim();
    sim.put("/data/in/X.rar", "X");
    sim.put("/data/in/keep.txt", "kept");
    sim.pack(
        "X",
        Some(vec![
            ("a", EntryKind::File, "1"),
            ("b", EntryKind::File, "2"),
            ("c", EntryKind::File, "3"),
        ]),
    );
    let dirs_before = sim.dirs.clone();
    let end = drive(pipeline(&["X.rar"]), &mut sim);
    assert_eq!(end.phase(), Phase::Finished);
    assert_eq!(
        sim.under("/data/in"),
        vec!["/data/in/X.rar", "/data/in/a", "/data/in/b", "/data/in/c", "/data/in/keep.txt"]
    );
    assert_eq!(sim.files["/data/in/a"], "1");
    assert_eq!(sim.files["/data/in/b"], "2");
    assert_eq!(sim.files["/data/in/c"], "3");
    assert_eq!(sim.files["/data/in/keep.txt"], "kept");
    assert_eq!(sim.dirs, dirs_before);
    assert_eq!(sim.files.len(), 5);
    assert_eq!(
        *end.report(),
        vec![
            merged("/data/stage00000/a", MergeOutcome::Moved),
            merged("/data/stage00000/b", MergeOutcome::Moved),
            merged("/data/stage00000/c", MergeOutcome::Moved),
            record("/data/in/X.rar", Outcome::Unpacked),
        ]
    );
}

#[test]
fn actions_come_in_order() {
    let mut sim = sim();
    sim.put("/data/in/X.rar", "X");
    sim.pack("X", Some(vec![("a", EntryKind::File, "1")]));
    drive(pipeline(&["X.rar"]), &mut sim);
    assert_eq!(sim.asked.len(), 6);
    assert_eq!(sim.asked[0], Action::Locate { path: "/usr/bin/7z".to_string() });
    assert_eq!(sim.asked[1], Action::CreateDir { path: "/data/stage00000".to_string() });
    assert!(matches!(sim.asked[2], Action::Run { .. }));
    assert_eq!(sim.asked[3], Action::List { path: "/data/stage00000".to_string() });
    assert_eq!(
        sim.asked[4],
        Action::Rename { from: "/data/stage00000/a".to_string(), to: "/data/in/a".to_string() }
    );
    assert_eq!(sim.asked[5], Action::RemoveTree { path: "/data/stage00000".to_string() });
}

#[test]
fn nested_archive_is_flattened() {
    let mut sim = sim();
    sim.put("/data/in/A.rar", "A");
    sim.pack(
        "A",
        Some(vec![("movie.mkv", EntryKind::File, "film"), ("B.rar", EntryKind::File, "B")]),
    );
    sim.pack("B", Some(vec![("readme.txt", EntryKind::File, "read me")]));
    let dirs_before = sim.dirs.clone();
    let end = drive(pipeline(&["A.rar"]), &mut sim);
    assert_eq!(end.phase(), Phase::Finished);
    assert_eq!(
        sim.under("/data/in"),
        vec!["/data/in/A.rar", "/data/in/movie.mkv", "/data/in/readme.txt"]
    );
    assert_eq!(sim.files["/data/in/movie.mkv"], "film");
    assert_eq!(sim.files["/data/in/readme.txt"], "read me");
    assert!(!sim.files.contains_key("/data/in/B.rar"));
    assert_eq!(sim.files.len(), 3);
    assert_eq!(sim.dirs, dirs_before);
    assert_eq!(end.report().len(), 4);
    assert_eq!(end.report()[0], merged("/data/stage00000/movie.mkv", MergeOutcome::Moved));
    assert_eq!(end.report()[1], merged("/data/stage00004/readme.txt", MergeOutcome::Moved));
    assert_eq!(end.report()[2], record("/data/stage00000/B.rar", Outcome::Unpacked));
    assert_eq!(end.report()[3], record("/data/in/A.rar", Outcome::Unpacked));
}

#[test]
fn nested_archive_is_unpacked_before_the_entry_after_it() {
    let mut sim = sim();
    sim.put("/data/in/A.rar", "A");
    sim.pack(
        "A",
        Some(vec![
            ("B.rar", EntryKind::File, "B"),
            ("same.txt", EntryKind::File, "from A"),
        ]),
    );
    sim.pack("B", Some(vec![("same.txt", EntryKind::File, "from B")]));
    drive(pipeline(&["A.rar"]), &mut sim);
    assert_eq!(sim.files["/data/in/same.txt"], "from A");
}

#[test]
fn three_levels_of_nesting_end_in_one_directory() {
    let mut sim = sim();
    sim.put("/data/in/A.rar", "A");
    sim.pack("A", Some(vec![("B.rar", EntryKind::File, "B")]));
    sim.pack("B", Some(vec![("C.rar", EntryKind::File, "C"), ("b.txt", EntryKind::File, "b")]));
    sim.pack("C", Some(vec![("c.txt", EntryKind::File, "c")]));
    let dirs_before = sim.dirs.clone();
    let end = drive(pipeline(&["A.rar"]), &mut sim);
    assert_eq!(end.phase(), Phase::Finished);
    assert_eq!(sim.under("/data/in"), vec!["/data/in/A.rar", "/data/in/b.txt", "/data/in/c.txt"]);
    assert_eq!(sim.dirs, dirs_before);
}

#[test]
fn file_of_the_same_name_is_overwritten() {
    let mut sim = sim();
    sim.put("/data/in/X.rar", "X");
    sim.put("/data/in/movie.mkv", "old");
    sim.pack("X", Some(vec![("movie.mkv", EntryKind::File, "new")]));
    let end = drive(pipeline(&["X.rar"]), &mut sim);
    assert_eq!(sim.under("/data/in"), vec!["/data/in/X.rar", "/data/in/movie.mkv"]);
    assert_eq!(sim.files["/data/in/movie.mkv"], "new");
    assert_eq!(end.report()[0], merged("/data/stage00000/movie.mkv", MergeOutcome::Moved));
}

#[test]
fn failed_archive_does_not_stop_the_next() {
    let mut sim = sim();
    sim.put("/data/in/X.rar", "X");
    sim.put("/data/in/Y.rar", "Y");
    sim.pack("X", None);
    sim.pack("Y", Some(vec![("y.txt", EntryKind::File, "why")]));
    let dirs_before = sim.dirs.clone();
    let end = drive(pipeline(&["X.rar", "Y.rar"]), &mut sim);
    assert_eq!(end.phase(), Phase::Finished);
    assert_eq!(sim.files["/data/in/y.txt"], "why");
    assert_eq!(sim.dirs, dirs_before);
    assert_eq!(end.report().len(), 3);
    assert_eq!(
        end.report()[0],
        record(
            "/data/in/X.rar",
            Outcome::Failed(ArchiveFault::ToolExecution(ToolFailure {
                status_code: Some(2),
                stderr: "cannot open the file as archive".to_string(),
            })),
        )
    );
    assert_eq!(end.report()[1], merged("/data/stage00003/y.txt", MergeOutcome::Moved));
    assert_eq!(end.report()[2], record("/data/in/Y.rar", Outcome::Unpacked));
}

#[test]
fn failed_nested_archive_does_not_stop_its_siblings() {
    let mut sim = sim();
    sim.put("/data/in/A.rar", "A");
    sim.pack(
        "A",
        Some(vec![("bad.rar", EntryKind::File, "junk"), ("good.txt", EntryKind::File, "g")]),
    );
    let dirs_before = sim.dirs.clone();
    let end = drive(pipeline(&["A.rar"]), &mut sim);
    assert_eq!(sim.under("/data/in"), vec!["/data/in/A.rar", "/data/in/good.txt"]);
    assert_eq!(sim.dirs, dirs_before);
    assert_eq!(end.report().len(), 3);
    assert!(matches!(
        end.report()[0].outcome,
        Outcome::Failed(ArchiveFault::ToolExecution(_))
    ));
    assert_eq!(end.report()[0].subject, "/data/stage00000/bad.rar");
    assert_eq!(end.report()[2], record("/data/in/A.rar", Outcome::Unpacked));
}

#[test]
fn existing_staging_path_is_detected_and_left_alone() {
    let mut sim = sim();
    sim.put("/data/in/X.rar", "X");
    sim.put("/data/in/Y.rar", "Y");
    sim.pack("X", Some(vec![("x.txt", EntryKind::File, "x")]));
    sim.pack("Y", Some(vec![("y.txt", EntryKind::File, "y")]));
    sim.dirs.insert("/data/stage00000".to_string());
    sim.put("/data/stage00000/precious", "keep me");
    let end = drive(pipeline(&["X.rar", "Y.rar"]), &mut sim);
    assert_eq!(end.phase(), Phase::Finished);
    assert_eq!(
        end.report()[0],
        record("/data/in/X.rar", Outcome::Failed(ArchiveFault::DirectoryCreate))
    );
    assert_eq!(sim.files["/data/stage00000/precious"], "keep me");
    assert!(sim.dirs.contains("/data/stage00000"));
    assert!(!sim.files.contains_key("/data/in/x.txt"));
    assert_eq!(sim.files["/data/in/y.txt"], "y");
    let touched = sim
        .asked
        .iter()
        .filter(|action| match action {
            Action::CreateDir { .. } => false,
            Action::Run { command } => command.args[1] == "-o/data/stage00000",
            Action::List { path } | Action::RemoveTree { path } => path == "/data/stage00000",
            Action::Rename { from, .. } => from.starts_with("/data/stage00000/"),
            _ => false,
        })
        .count();
    assert_eq!(touched, 0);
}

#[test]
fn subdirectory_in_an_archive_is_skipped() {
    let mut sim = sim();
    sim.put("/data/in/X.rar", "X");
    sim.pack(
        "X",
        Some(vec![
            ("docs", EntryKind::Directory, ""),
            ("a.txt", EntryKind::File, "a"),
            ("odd.rar", EntryKind::Directory, ""),
        ]),
    );
    let dirs_before = sim.dirs.clone();
    let end = drive(pipeline(&["X.rar"]), &mut sim);
    assert_eq!(sim.under("/data/in"), vec!["/data/in/X.rar", "/data/in/a.txt"]);
    assert_eq!(sim.dirs, dirs_before);
    assert_eq!(
        *end.report(),
        vec![
            merged("/data/stage00000/docs", MergeOutcome::Skipped),
            merged("/data/stage00000/a.txt", MergeOutcome::Moved),
            merged("/data/stage00000/odd.rar", MergeOutcome::Skipped),
            record("/data/in/X.rar", Outcome::Unpacked),
        ]
    );
}

#[test]
fn failed_rename_falls_back_to_copy_and_delete() {
    let mut sim = sim();
    sim.put("/data/in/X.rar", "X");
    sim.pack("X", Some(vec![("a.txt", EntryKind::File, "a")]));
    sim.refuse("rename", "/data/stage00000/a.txt");
    let end = drive(pipeline(&["X.rar"]), &mut sim);
    assert_eq!(sim.files["/data/in/a.txt"], "a");
    assert_eq!(end.report()[0], merged("/data/stage00000/a.txt", MergeOutcome::Copied));
    assert_eq!(
        sim.asked[5],
        Action::Copy {
            from: "/data/stage00000/a.txt".to_string(),
            to: "/data/in/a.txt".to_string(),
        }
    );
    assert_eq!(sim.asked[6], Action::Delete { path: "/data/stage00000/a.txt".to_string() });
}

#[test]
fn failed_copy_is_recorded_and_the_merge_goes_on() {
    let mut sim = sim();
    sim.put("/data/in/X.rar", "X");
    sim.pack("X", Some(vec![("a.txt", EntryKind::File, "a"), ("b.txt", EntryKind::File, "b")]));
    sim.refuse("rename", "/data/stage00000/a.txt");
    sim.refuse("copy", "/data/stage00000/a.txt");
    let dirs_before = sim.dirs.clone();
    let end = drive(pipeline(&["X.rar"]), &mut sim);
    assert_eq!(
        *end.report(),
        vec![
            merged("/data/stage00000/a.txt", MergeOutcome::Failed(FileFault::Copy)),
            merged("/data/stage00000/b.txt", MergeOutcome::Moved),
            record("/data/in/X.rar", Outcome::Unpacked),
        ]
    );
    assert_eq!(sim.under("/data/in"), vec!["/data/in/X.rar", "/data/in/b.txt"]);
    assert_eq!(sim.dirs, dirs_before);
    assert!(sim.under("/data/stage00000").is_empty());
}

#[test]
fn failed_delete_is_recorded_and_the_merge_goes_on() {
    let mut sim = sim();
    sim.put("/data/in/X.rar", "X");
    sim.pack("X", Some(vec![("a.txt", EntryKind::File, "a"), ("b.txt", EntryKind::File, "b")]));
    sim.refuse("rename", "/data/stage00000/a.txt");
    sim.refuse("delete", "/data/stage00000/a.txt");
    let end = drive(pipeline(&["X.rar"]), &mut sim);
    assert_eq!(
        end.report()[0],
        merged("/data/stage00000/a.txt", MergeOutcome::Failed(FileFault::Delete))
    );
    assert_eq!(end.report()[1], merged("/data/stage00000/b.txt", MergeOutcome::Moved));
    assert_eq!(sim.files["/data/in/a.txt"], "a");
}

#[test]
fn staging_that_cannot_be_listed_is_removed() {
    let mut sim = sim();
    sim.put("/data/in/X.rar", "X");
    sim.pack("X", Some(vec![("a.txt", EntryKind::File, "a")]));
    sim.refuse("list", "/data/stage00000");
    let dirs_before = sim.dirs.clone();
    let end = drive(pipeline(&["X.rar"]), &mut sim);
    assert_eq!(
        *end.report(),
        vec![record("/data/in/X.rar", Outcome::Failed(ArchiveFault::DirectoryRead))]
    );
    assert_eq!(sim.dirs, dirs_before);
}

#[test]
fn staging_that_cannot_be_removed_is_recorded() {
    let mut sim = sim();
    sim.put("/data/in/X.rar", "X");
    sim.put("/data/in/Y.rar", "Y");
    sim.pack("X", Some(vec![("a.txt", EntryKind::File, "a")]));
    sim.pack("Y", Some(vec![("b.txt", EntryKind::File, "b")]));
    sim.refuse("remove", "/data/stage00000");
    let end = drive(pipeline(&["X.rar", "Y.rar"]), &mut sim);
    assert_eq!(end.phase(), Phase::Finished);
    assert_eq!(
        end.report()[1],
        record("/data/in/X.rar", Outcome::Failed(ArchiveFault::DirectoryRemove))
    );
    assert_eq!(end.report()[3], record("/data/in/Y.rar", Outcome::Unpacked));
    assert_eq!(sim.files["/data/in/a.txt"], "a");
    assert_eq!(sim.files["/data/in/b.txt"], "b");
}

#[test]
fn earlier_fault_stands_when_removal_fails_too() {
    let mut sim = sim();
    sim.put("/data/in/X.rar", "X");
    sim.pack("X", None);
    sim.refuse("remove", "/data/stage00000");
    let end = drive(pipeline(&["X.rar"]), &mut sim);
    assert_eq!(end.report().len(), 1);
    assert!(matches!(end.report()[0].outcome, Outcome::Failed(ArchiveFault::ToolExecution(_))));
}

#[test]
fn missing_tool_is_installed_first() {
    let mut sim = sim();
    sim.tool_installed = false;
    sim.put("/data/in/X.rar", "X");
    sim.pack("X", Some(vec![("a.txt", EntryKind::File, "a")]));
    let end = drive(pipeline(&["X.rar"]), &mut sim);
    assert_eq!(end.phase(), Phase::Finished);
    match &sim.asked[1] {
        Action::Run { command } => {
            assert_eq!(command.program, "pacman");
            assert_eq!(
                command.args,
                vec!["-S".to_string(), "p7zip".to_string(), "--noconfirm".to_string()]
            );
            assert_eq!(command.working_dir, ".");
        }
        other => panic!("unexpected action {:?}", other),
    }
    assert_eq!(sim.asked[2], Action::CreateDir { path: "/data/stage00001".to_string() });
    assert_eq!(sim.files["/data/in/a.txt"], "a");
}

#[test]
fn failed_installation_aborts_the_run() {
    let mut sim = sim();
    sim.tool_installed = false;
    sim.install_works = false;
    sim.put("/data/in/X.rar", "X");
    sim.pack("X", Some(vec![("a.txt", EntryKind::File, "a")]));
    let end = drive(pipeline(&["X.rar"]), &mut sim);
    assert_eq!(end.phase(), Phase::Aborted);
    assert_eq!(end.pending(), Action::Abort);
    assert!(end.ended());
    assert_eq!(sim.asked.len(), 2);
    assert!(end.report().is_empty());
    assert!(!sim.files.contains_key("/data/in/a.txt"));
}

#[test]
fn empty_queue_finishes_after_the_tool_is_found() {
    let mut sim = sim();
    let end = drive(pipeline(&[]), &mut sim);
    assert_eq!(end.phase(), Phase::Finished);
    assert_eq!(sim.asked.len(), 1);
    assert!(end.report().is_empty());
}

#[test]
fn empty_archive_leaves_the_destination_as_it_was() {
    let mut sim = sim();
    sim.put("/data/in/X.rar", "X");
    sim.put("/data/in/keep.txt", "kept");
    sim.pack("X", Some(vec![]));
    let files_before = sim.files.clone();
    let dirs_before = sim.dirs.clone();
    let end = drive(pipeline(&["X.rar"]), &mut sim);
    assert_eq!(sim.files, files_before);
    assert_eq!(sim.dirs, dirs_before);
    assert_eq!(*end.report(), vec![record("/data/in/X.rar", Outcome::Unpacked)]);
}

#[test]
fn answer_of_the_wrong_kind_counts_as_failure() {
    let start = pipeline(&["X.rar"]).step_with_name(Reply::Succeeded, "stage00000");
    assert_eq!(start.phase(), Phase::Creating);
    let listed = start.step_with_name(Reply::Listed(vec![]), "stage00001");
    assert_eq!(listed.phase(), Phase::Finished);
    assert_eq!(
        *listed.report(),
        vec![record("/data/in/X.rar", Outcome::Failed(ArchiveFault::DirectoryCreate))]
    );

    let extracting = pipeline(&["X.rar"])
        .step_with_name(Reply::Succeeded, "stage00000")
        .step_with_name(Reply::Succeeded, "stage00001");
    assert_eq!(extracting.phase(), Phase::Extracting);
    let failed = extracting.step_with_name(Reply::Succeeded, "stage00002");
    assert_eq!(failed.phase(), Phase::Releasing);
    let end = failed.step_with_name(Reply::Succeeded, "stage00003");
    assert_eq!(
        *end.report(),
        vec![record(
            "/data/in/X.rar",
            Outcome::Failed(ArchiveFault::ToolExecution(ToolFailure {
                status_code: None,
                stderr: String::new(),
            })),
        )]
    );
}

#[test]
fn process_without_exit_code_counts_as_failed() {
    let extracting = pipeline(&["X.rar"])
        .step_with_name(Reply::Succeeded, "stage00000")
        .step_with_name(Reply::Succeeded, "stage00001");
    let killed = Reply::Exited(ToolOutput {
        code: None,
        stdout: String::new(),
        stderr: "killed".to_string(),
    });
    let failed = extracting.step_with_name(killed, "stage00002");
    assert_eq!(failed.pending(), Action::RemoveTree { path: "/data/stage00000".to_string() });
}

#[test]
fn phases_follow_the_move_stages() {
    let listing = pipeline(&["X.rar"])
        .step_with_name(Reply::Succeeded, "stage00000")
        .step_with_name(Reply::Succeeded, "stage00001")
        .step_with_name(exited(0, ""), "stage00002");
    assert_eq!(listing.phase(), Phase::Listing);
    let entries = vec![Entry { name: "a.txt".to_string(), kind: EntryKind::File }];
    let renaming = listing.step_with_name(Reply::Listed(entries), "stage00003");
    assert_eq!(renaming.phase(), Phase::Moving(MoveStage::Rename));
    let copying = renaming.step_with_name(Reply::Failed, "stage00004");
    assert_eq!(copying.phase(), Phase::Moving(MoveStage::Copy));
    let deleting = copying.step_with_name(Reply::Succeeded, "stage00005");
    assert_eq!(deleting.phase(), Phase::Moving(MoveStage::Delete));
    let releasing = deleting.step_with_name(Reply::Succeeded, "stage00006");
    assert_eq!(releasing.phase(), Phase::Releasing);
    let end = releasing.step_with_name(Reply::Succeeded, "stage00007");
    assert_eq!(end.phase(), Phase::Finished);
    let still = end.step_with_name(Reply::Succeeded, "stage00008");
    assert_eq!(still.phase(), Phase::Finished);
    assert_eq!(still.report().len(), 2);
}

#[test]
fn second_run_over_a_tree_without_archives_does_nothing() {
    let mut sim = sim();
    sim.put("/data/in/movie.mkv", "film");
    let tree: Vec<Node> = sim
        .under("/data/in")
        .iter()
        .map(|path| file(path.strip_prefix("/data/in/").unwrap()))
        .collect();
    assert_eq!(plan("/data/in", Some(&tree)).err(), Some(Stop::EmptyCorpus));
    assert_eq!(plan("/data/in", Some(&tree)).err(), Some(Stop::EmptyCorpus));
    assert_eq!(sim.files.len(), 1);
    assert!(sim.asked.is_empty());
}

#[test]
fn random_names_are_used_for_staging() {
    let mut rng = rand::thread_rng();
    let first = pipeline(&["X.rar"]).step(Reply::Succeeded, &mut rng);
    let path = match first.pending() {
        Action::CreateDir { path } => path,
        other => panic!("unexpected action {:?}", other),
    };
    let name = path.strip_prefix("/data/").unwrap();
    assert_eq!(name.len(), 10);
    assert!(name.chars().all(|c| c.is_ascii_alphanumeric()));
    let second = first.step(Reply::Succeeded, &mut rng);
    assert_eq!(second.phase(), Phase::Extracting);
    let third = second.step(exited(0, ""), &mut rng);
    assert_eq!(third.pending(), Action::List { path });
}
