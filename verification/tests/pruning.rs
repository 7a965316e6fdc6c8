use emptydir::emptydir::{
    climb_ancestors, emptydir_tree, prune_entries, AncestorLevel, EmptydirResult, FsEntry,
    FsNode,
};

fn file(name: &str) -> FsEntry {
    FsEntry { name: String::from(name), node: FsNode::File }
}

fn dir(name: &str, entries: Vec<FsEntry>) -> FsEntry {
    FsEntry { name: String::from(name), node: FsNode::Dir(entries) }
}

fn level(name: &str, other_names: &[&str]) -> AncestorLevel {
    AncestorLevel {
        name: String::from(name),
        other_names: other_names.iter().map(|s| String::from(*s)).collect(),
        protected: false,
        readable: true,
        removal_succeeds: true,
    }
}

#[test]
fn it_doesnt_delete_my_do_not_backup() {
    let result = emptydir_tree(
        &String::from("do not back up"),
        vec![file("private.txt")],
        true,
        true,
        &vec![level("Desktop", &["other stuff"])],
    );
    assert_eq!(result, EmptydirResult { count_deleted: 0, count_errors: 0 });
}

#[test]
fn it_doesnt_delete_a_non_existent_directory() {
    // the walk finds nothing below a missing root, and the first ancestor
    // cannot be listed once the chain is gone
    let mut unreadable = level("not", &[]);
    unreadable.readable = false;
    let result = climb_ancestors(&vec![unreadable], &String::from("exist"), true);
    assert_eq!(result, EmptydirResult { count_deleted: 0, count_errors: 0 });
}

#[test]
fn it_deletes_an_empty_dir() {
    let result = emptydir_tree(&String::from("scratch"), vec![], false, true, &vec![]);
    assert_eq!(result, EmptydirResult { count_deleted: 1, count_errors: 0 });
}

#[test]
fn it_ignores_a_dir_with_extra_entries() {
    let result = emptydir_tree(
        &String::from("scratch"),
        vec![file("greeting.txt")],
        false,
        true,
        &vec![],
    );
    assert_eq!(result, EmptydirResult { count_deleted: 0, count_errors: 0 });

    let (remaining, deleted) = prune_entries(vec![file("greeting.txt")], false);
    assert_eq!(remaining, vec![file("greeting.txt")]);
    assert_eq!(deleted, 0);
}

#[test]
fn it_deletes_a_dir_with_only_safe_to_delete_entries() {
    //    .
    //    ├─ .ipynb_checkpoints/
    //    │   └─ analysis-checkpoint.ipynb
    //    │
    //    ├─ .venv/
    //    │   └─ bin/
    //    │       └─ mypython.py
    //    │
    //    ├─ __pycache__
    //    │   └─ myfile.pyc
    //    │
    //    └─ .DS_Store
    //
    let entries = vec![
        dir(".venv", vec![dir("bin", vec![file("mypython.py")])]),
        dir(".ipynb_checkpoints", vec![file("analysis-checkpoint.ipynb")]),
        dir("__pycache__", vec![file("myfile.pyc")]),
        file(".DS_Store"),
    ];
    let result = emptydir_tree(&String::from("scratch"), entries, false, true, &vec![]);
    assert_eq!(result, EmptydirResult { count_deleted: 1, count_errors: 0 });
}

#[test]
fn it_ignores_a_dir_with_a_mix_of_safe_and_unsafe_entries() {
    let entries = vec![file(".DS_Store"), file("greeting.txt")];
    let result = emptydir_tree(&String::from("scratch"), entries, false, true, &vec![]);
    assert_eq!(result, EmptydirResult { count_deleted: 0, count_errors: 0 });
}

#[test]
fn it_deletes_a_subdir_with_only_safe_to_delete_entries() {
    //    .
    //    ├─ subdir/
    //    │   ├─ .venv/
    //    │   │   └─ bin/
    //    │   │       └─ mypython.py
    //    │   │
    //    │   ├─ __pycache__
    //    │   │   └─ myfile.pyc
    //    │   │
    //    │   └─ .DS_Store
    //    │
    //    └─ greeting.txt
    //
    let entries = vec![
        dir(
            "subdir",
            vec![
                dir(".venv", vec![dir("bin", vec![file("mypython.py")])]),
                dir("__pycache__", vec![file("myfile.pyc")]),
                file(".DS_Store"),
            ],
        ),
        file("greeting.txt"),
    ];
    let (remaining, deleted) = prune_entries(entries, false);
    assert_eq!(deleted, 1);
    assert_eq!(remaining, vec![file("greeting.txt")]);
}

#[test]
fn pruning_twice_deletes_nothing_more() {
    let entries = vec![
        dir("build", vec![dir("__pycache__", vec![file("mod.pyc")]), file("out.bin")]),
        dir("empty-one", vec![]),
        file("keep.txt"),
    ];
    let (remaining, first) = prune_entries(entries, false);
    assert_eq!(first, 1);
    let expected = vec![
        dir("build", vec![dir("__pycache__", vec![file("mod.pyc")]), file("out.bin")]),
        file("keep.txt"),
    ];
    let (again, second) = prune_entries(remaining, false);
    assert_eq!(second, 0);
    assert_eq!(again, expected);
}

#[test]
fn a_git_subtree_is_never_pruned() {
    let entries = vec![dir(".git", vec![dir("refs", vec![]), dir("objects", vec![])])];
    let (remaining, deleted) = prune_entries(entries, false);
    assert_eq!(deleted, 0);
    assert_eq!(
        remaining,
        vec![dir(".git", vec![dir("refs", vec![]), dir("objects", vec![])])]
    );
}

#[test]
fn deleting_a_leaf_cascades_to_newly_empty_ancestors() {
    // pruning `root/a/b` with `b` empty: `b` goes, then `a`, and the walk
    // stops at `root`, which still holds an unrelated file
    let result = emptydir_tree(
        &String::from("b"),
        vec![],
        false,
        true,
        &vec![level("a", &[]), level("root", &["unrelated.txt"])],
    );
    assert_eq!(result, EmptydirResult { count_deleted: 2, count_errors: 0 });
}

#[test]
fn a_cache_folder_and_a_metadata_file_make_a_directory_deletable() {
    let entries = vec![dir(".jekyll-cache", vec![file("cache.dat")]), file("Thumbs.db")];
    let result = emptydir_tree(&String::from("site"), entries, false, true, &vec![]);
    assert_eq!(result, EmptydirResult { count_deleted: 1, count_errors: 0 });
}

#[test]
fn a_cache_folder_beside_a_text_file_blocks_deletion() {
    let entries = vec![dir(".jekyll-cache", vec![file("cache.dat")]), file("notes.txt")];
    let result = emptydir_tree(&String::from("site"), entries, false, true, &vec![]);
    assert_eq!(result, EmptydirResult { count_deleted: 0, count_errors: 0 });
}

#[test]
fn a_failed_removal_is_counted_and_the_standing_name_blocks_the_climb() {
    let mut failing = level("mid", &[]);
    failing.removal_succeeds = false;
    let result = climb_ancestors(
        &vec![failing, level("top", &[])],
        &String::from("scratch"),
        false,
    );
    // `mid` was approved but not removed, so `top` still holds `mid`,
    // which is no junk name, and the climb stops
    assert_eq!(result, EmptydirResult { count_deleted: 0, count_errors: 1 });
}

#[test]
fn nested_empty_directories_collapse() {
    let entries = vec![dir("a", vec![dir("b", vec![dir("c", vec![])])])];
    let (remaining, deleted) = prune_entries(entries, false);
    assert_eq!(remaining, vec![]);
    assert_eq!(deleted, 3);
}

#[test]
fn recording_outcomes_drives_the_two_counters() {
    let mut result = EmptydirResult::new();
    result.record(true);
    result.record(true);
    result.record(false);
    assert_eq!(result, EmptydirResult { count_deleted: 2, count_errors: 1 });
}

#[test]
fn a_failed_root_removal_is_an_error() {
    let result = emptydir_tree(&String::from("scratch"), vec![], false, false, &vec![]);
    assert_eq!(result, EmptydirResult { count_deleted: 0, count_errors: 1 });
}
