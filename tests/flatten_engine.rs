use flatten::listing::{ContainsDirectory, DirEntry, EntryKind, Listing};
use flatten::moves::{
    destinations, partition_file_conflicts, plan_moves, plan_subtree, MoveEntry, PlanError, Step,
    SubtreePlan,
};
use flatten::path::{Component, FsPath, SplicePath};
use flatten::prune::{get_deletable_directory, DeletionStep};
use flatten::scan::{FilesUnfollowed, ScanStep};

fn path(s: &str) -> FsPath {
    let mut parts = Vec::new();
    for c in std::path::Path::new(s).components() {
        parts.push(match c {
            std::path::Component::RootDir => Component::RootDir,
            std::path::Component::CurDir => Component::CurDir,
            std::path::Component::ParentDir => Component::ParentDir,
            std::path::Component::Normal(n) => Component::Normal(n.to_str().unwrap().to_string()),
            std::path::Component::Prefix(p) => {
                Component::Normal(p.as_os_str().to_str().unwrap().to_string())
            }
        });
    }
    FsPath::new(parts)
}

fn show(p: &FsPath) -> String {
    let mut out = String::new();
    for (i, c) in p.components.iter().enumerate() {
        match c {
            Component::RootDir => out.push('/'),
            Component::CurDir => out.push('.'),
            Component::ParentDir => out.push_str(".."),
            Component::Normal(n) => out.push_str(n),
        }
        let root = matches!(c, Component::RootDir);
        if i + 1 < p.components.len() && !root {
            out.push('/');
        }
    }
    out
}

fn entry(name: &str, kind: EntryKind) -> DirEntry {
    DirEntry { name: name.to_string(), kind }
}

fn listing(entries: Vec<DirEntry>) -> Listing {
    Listing { entries }
}

fn move_entry(from: &str, to: &str) -> MoveEntry {
    MoveEntry { from: path(from), to: path(to) }
}

fn show_steps(steps: &[Step]) -> Vec<String> {
    steps
        .iter()
        .map(|s| match s {
            Step::CreateDir(d) => format!("create {}", show(d)),
            Step::Rename(a, b) => format!("move {} {}", show(a), show(b)),
        })
        .collect()
}

/// Runs a walk over a tree given as a listing per directory.
fn walk(root: &str, tree: &[(&str, Vec<(&str, EntryKind)>)]) -> (Vec<String>, Vec<String>) {
    let read = |dir: &str| -> Listing {
        let found = tree.iter().find(|(d, _)| *d == dir).expect("directory in tree");
        listing(found.1.iter().map(|(n, k)| entry(n, *k)).collect())
    };
    let mut scan = FilesUnfollowed::new(path(root), read(root));
    let mut found = Vec::new();
    let mut opened = Vec::new();
    loop {
        match scan.next() {
            ScanStep::Found(p) => found.push(show(&p)),
            ScanStep::Open(p) => {
                let dir = show(&p);
                opened.push(dir.clone());
                scan.enter(read(&dir));
            }
            ScanStep::Done => break,
        }
    }
    (found, opened)
}

#[test]
fn splice_reroots_by_component_count() {
    let item = path("/in/a/b/file.txt");
    let r = item.splice(&path("/out"), &path("/in/a"));
    assert_eq!(show(&r), "/out/b/file.txt");
}

#[test]
fn splice_keeps_depth_zero_items() {
    let item = path("/in/x.txt");
    let r = item.splice(&path("/out/deep"), &path("/in"));
    assert_eq!(show(&r), "/out/deep/x.txt");
}

#[test]
fn join_resolves_relative_sources() {
    let target = path("/out");
    assert_eq!(show(&target.join(&path("src/a"))), "/out/src/a");
    assert_eq!(show(&target.join(&path("/abs/b"))), "/abs/b");
}

#[test]
fn probe_counts_files_and_symlinks_only() {
    let only_dirs = listing(vec![entry("a", EntryKind::Directory), entry("s", EntryKind::Other)]);
    assert!(!only_dirs.contains_file_symlink_in_directory());
    let with_link = listing(vec![entry("a", EntryKind::Directory), entry("l", EntryKind::Symlink)]);
    assert!(with_link.contains_file_symlink_in_directory());
    let with_file = listing(vec![entry("f", EntryKind::File)]);
    assert!(with_file.contains_file_symlink_in_directory());
    assert!(!listing(vec![]).contains_file_symlink_in_directory());
}

#[test]
fn walk_finds_files_at_every_depth_and_leaves_symlinks_closed() {
    let tree = vec![
        ("/in", vec![("a", EntryKind::Directory), ("top.txt", EntryKind::File), ("link", EntryKind::Symlink)]),
        ("/in/a", vec![("b", EntryKind::Directory), ("fifo", EntryKind::Other), ("mid.txt", EntryKind::File)]),
        ("/in/a/b", vec![("deep.txt", EntryKind::File)]),
    ];
    let (found, opened) = walk("/in", &tree);
    assert_eq!(opened, vec!["/in/a", "/in/a/b"]);
    assert_eq!(
        found,
        vec!["/in/top.txt", "/in/link", "/in/a/mid.txt", "/in/a/b/deep.txt"]
    );
}

#[test]
fn walk_yields_a_directorys_files_before_going_down() {
    let tree = vec![
        ("/d", vec![("s", EntryKind::Directory), ("f", EntryKind::File)]),
        ("/d/s", vec![("g", EntryKind::File)]),
    ];
    let (found, _) = walk("/d", &tree);
    assert_eq!(found, vec!["/d/f", "/d/s/g"]);
}

#[test]
fn leaves_first_keeps_order_within_each_part() {
    let l = listing(vec![
        entry("d1", EntryKind::Directory),
        entry("f1", EntryKind::File),
        entry("o", EntryKind::Other),
        entry("l1", EntryKind::Symlink),
        entry("d2", EntryKind::Directory),
    ]);
    let names: Vec<String> = l.leaves_first().iter().map(|e| e.name.clone()).collect();
    assert_eq!(names, vec!["f1", "l1", "d1", "o", "d2"]);
}

#[test]
fn holds_only_accepts_the_chain_directory_alone() {
    let next = Component::Normal("a".to_string());
    assert!(listing(vec![entry("a", EntryKind::Directory)]).holds_only(&next));
    assert!(!listing(vec![entry("a", EntryKind::File)]).holds_only(&next));
    assert!(!listing(vec![entry("b", EntryKind::Directory)]).holds_only(&next));
    assert!(!listing(vec![entry("a", EntryKind::Directory), entry("b", EntryKind::Directory)])
        .holds_only(&next));
    assert!(!listing(vec![]).holds_only(&next));
}

#[test]
fn walk_of_empty_directory_finds_nothing() {
    let tree = vec![("/in", vec![]), ("/in/e", vec![])];
    let (found, opened) = walk("/in", &tree);
    assert!(found.is_empty());
    assert!(opened.is_empty());
    let tree = vec![("/in", vec![("e", EntryKind::Directory)]), ("/in/e", vec![])];
    let (found, opened) = walk("/in", &tree);
    assert!(found.is_empty());
    assert_eq!(opened, vec!["/in/e"]);
}

#[test]
fn destinations_keep_the_layout_under_the_target() {
    let found = vec![path("/in/a/b/file.txt"), path("/in/a/top.txt")];
    let entries = destinations(&path("/out"), &path("/in/a"), &found).unwrap();
    assert_eq!(entries.len(), 2);
    assert_eq!(show(&entries[0].from), "/in/a/b/file.txt");
    assert_eq!(show(&entries[0].to), "/out/b/file.txt");
    assert_eq!(show(&entries[1].to), "/out/top.txt");
}

#[test]
fn destinations_refuse_items_outside_the_subtree() {
    let found = vec![path("/in/a/x"), path("/elsewhere/y")];
    let r = destinations(&path("/out"), &path("/in/a"), &found);
    assert!(matches!(r, Err(PlanError::NotUnderSubtree(1))));
}

#[test]
fn destinations_refuse_the_root_itself_as_an_item() {
    let found = vec![path("/in/a/x"), path("/in/a")];
    let r = destinations(&path("/out"), &path("/in/a"), &found);
    assert!(matches!(r, Err(PlanError::NotUnderSubtree(1))));
}

#[test]
fn destinations_refuse_a_target_inside_the_subtree() {
    let found = vec![path("/x/y/a")];
    let r = destinations(&path("/x/y/q"), &path("/x/y"), &found);
    assert!(matches!(r, Err(PlanError::TargetInSubtree)));
    let r = destinations(&path("/x/y"), &path("/x/y"), &found);
    assert!(matches!(r, Err(PlanError::TargetInSubtree)));
}

#[test]
fn partition_is_exhaustive_and_disjoint() {
    let entries = vec![
        move_entry("/in/a", "/out/a"),
        move_entry("/in/b", "/out/b"),
        move_entry("/in/c", "/out/c"),
    ];
    let (free, taken) = partition_file_conflicts(&entries, &vec![false, true, false]);
    let free: Vec<String> = free.iter().map(|e| show(&e.from)).collect();
    let taken: Vec<String> = taken.iter().map(|e| show(&e.from)).collect();
    assert_eq!(free, vec!["/in/a", "/in/c"]);
    assert_eq!(taken, vec!["/in/b"]);
}

#[test]
fn partition_of_nothing_is_empty() {
    let (free, taken) = partition_file_conflicts(&vec![], &vec![]);
    assert!(free.is_empty() && taken.is_empty());
}

#[test]
fn plan_creates_each_parent_once_before_its_first_move() {
    let movable = vec![
        move_entry("/in/b/one", "/out/b/one"),
        move_entry("/in/b/two", "/out/b/two"),
        move_entry("/in/c/three", "/out/c/three"),
    ];
    let steps = plan_moves(&movable);
    assert_eq!(
        show_steps(&steps),
        vec![
            "create /out/b",
            "move /in/b/one /out/b/one",
            "move /in/b/two /out/b/two",
            "create /out/c",
            "move /in/c/three /out/c/three",
        ]
    );
}

#[test]
fn plan_of_subtree_with_conflict_does_not_prune() {
    let entries = vec![move_entry("/in/x.txt", "/out/x.txt"), move_entry("/in/y.txt", "/out/y.txt")];
    let plan = plan_subtree(&entries, &vec![true, false]);
    assert!(!plan.prune);
    assert_eq!(plan.conflicts.len(), 1);
    assert_eq!(show(&plan.conflicts[0].to), "/out/x.txt");
    assert_eq!(show_steps(&plan.steps), vec!["create /out", "move /in/y.txt /out/y.txt"]);
}

fn emptied() -> SubtreePlan {
    SubtreePlan { steps: vec![], conflicts: vec![], prune: true }
}

fn is_probe(r: &DeletionStep, dir: &str, next: &str) -> bool {
    matches!(r, DeletionStep::Probe(p, Component::Normal(n)) if show(p) == dir && n == next)
}

fn is_remove(r: &DeletionStep, dir: &str) -> bool {
    matches!(r, DeletionStep::Remove(p) if show(p) == dir)
}

#[test]
fn deletion_starts_at_the_subtree_and_stops_below_the_target() {
    let current = path("/out/x/y/z");
    let target = path("/out");
    assert!(is_probe(&get_deletable_directory(&current, &target, &emptied(), &vec![]), "/out/x/y", "z"));
    assert!(is_remove(&get_deletable_directory(&current, &target, &emptied(), &vec![false]), "/out/x/y/z"));
    assert!(is_probe(&get_deletable_directory(&current, &target, &emptied(), &vec![true]), "/out/x", "y"));
    assert!(is_remove(&get_deletable_directory(&current, &target, &emptied(), &vec![true, false]), "/out/x/y"));
    assert!(is_remove(&get_deletable_directory(&current, &target, &emptied(), &vec![true, true]), "/out/x"));
}

#[test]
fn deletion_never_reaches_an_ancestor_of_the_target() {
    let r = get_deletable_directory(&path("/x/y/z"), &path("/x/q"), &emptied(), &vec![true]);
    assert!(is_remove(&r, "/x/y"));
}

#[test]
fn deletion_climbs_chains_up_to_below_the_root() {
    let current = path("/t/p/q");
    let target = path("/out");
    assert!(is_probe(&get_deletable_directory(&current, &target, &emptied(), &vec![true]), "/t", "p"));
    assert!(is_remove(&get_deletable_directory(&current, &target, &emptied(), &vec![true, true]), "/t"));
}

#[test]
fn deletion_finds_nothing_where_the_subtree_may_not_go() {
    let target = path("/out");
    assert!(matches!(get_deletable_directory(&path("/out"), &target, &emptied(), &vec![]), DeletionStep::NotFound));
    assert!(matches!(get_deletable_directory(&path("/"), &target, &emptied(), &vec![]), DeletionStep::NotFound));
    assert!(matches!(get_deletable_directory(&path(""), &target, &emptied(), &vec![]), DeletionStep::NotFound));
    let r = get_deletable_directory(&path("/x/y"), &path("/x/y/q"), &emptied(), &vec![]);
    assert!(matches!(r, DeletionStep::NotFound));
}

#[test]
fn deletion_of_a_direct_child_of_the_target_takes_the_child_alone() {
    let r = get_deletable_directory(&path("/out/sub"), &path("/out"), &emptied(), &vec![]);
    assert!(is_remove(&r, "/out/sub"));
}

#[test]
fn deletion_keeps_a_parent_with_other_content() {
    let r = get_deletable_directory(&path("/in/a"), &path("/out"), &emptied(), &vec![false]);
    assert!(is_remove(&r, "/in/a"));
}

#[test]
fn scenario_nested_file_moves_and_chain_is_removed() {
    let tree = vec![
        ("/in/a", vec![("b", EntryKind::Directory)]),
        ("/in/a/b", vec![("file.txt", EntryKind::File)]),
    ];
    let (found, _) = walk("/in/a", &tree);
    assert_eq!(found, vec!["/in/a/b/file.txt"]);
    let found: Vec<FsPath> = found.iter().map(|s| path(s)).collect();
    let entries = destinations(&path("/out"), &path("/in/a"), &found).unwrap();
    let plan = plan_subtree(&entries, &vec![false]);
    assert_eq!(
        show_steps(&plan.steps),
        vec!["create /out/b", "move /in/a/b/file.txt /out/b/file.txt"]
    );
    assert!(plan.prune);
    let r = get_deletable_directory(&path("/in/a"), &path("/out"), &plan, &vec![]);
    assert!(is_probe(&r, "/in", "a"));
    let r = get_deletable_directory(&path("/in/a"), &path("/out"), &plan, &vec![true]);
    assert!(is_remove(&r, "/in"));
}

#[test]
fn scenario_conflicting_file_blocks_pruning() {
    let tree = vec![("/in", vec![("x.txt", EntryKind::File)])];
    let (found, _) = walk("/in", &tree);
    let found: Vec<FsPath> = found.iter().map(|s| path(s)).collect();
    let entries = destinations(&path("/out"), &path("/in"), &found).unwrap();
    assert_eq!(show(&entries[0].to), "/out/x.txt");
    let plan = plan_subtree(&entries, &vec![true]);
    assert!(plan.steps.is_empty());
    assert_eq!(plan.conflicts.len(), 1);
    assert!(!plan.prune);
    let r = get_deletable_directory(&path("/in"), &path("/out"), &plan, &vec![]);
    assert!(matches!(r, DeletionStep::NotFound));
}
