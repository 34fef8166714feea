use fsum::engine::fsum;
use fsum::queue::Job;
use fsum::queue::JobQueue;
use fsum::engine::FsTree;
use fsum::engine::Node;
use fsum::engine::NodeKind;
use fsum::engine::TraversalError;
use fsum::identity::IdentityStore;
use fsum::resolve::identity_of;
use fsum::resolve::resolve_with;
use fsum::resolve::Contribution;
use fsum::resolve::FileIdentity;
use fsum::resolve::PathFact;

fn file(ino: u64, len: u64) -> Node {
    Node { dev: 1, ino, kind: NodeKind::File { len } }
}

fn dir(ino: u64, entries: Vec<usize>) -> Node {
    Node { dev: 1, ino, kind: NodeKind::Dir { entries, listable: true } }
}

fn sealed_dir(ino: u64, entries: Vec<usize>) -> Node {
    Node { dev: 1, ino, kind: NodeKind::Dir { entries, listable: false } }
}

fn link(ino: u64, target: Option<usize>) -> Node {
    Node { dev: 1, ino, kind: NodeKind::Symlink { target } }
}

#[test]
fn empty_input_is_zero() {
    let tree = FsTree { nodes: vec![] };
    let (total, errors) = fsum(&tree, &vec![], &vec![]);
    assert_eq!(total, 0);
    assert!(errors.is_empty());
}

#[test]
fn plain_tree_sums_all_files() {
    // A directory with three files of 10, 20 and 30 bytes and one empty
    // subdirectory: total 60.
    let tree = FsTree {
        nodes: vec![
            dir(1, vec![1, 2, 3, 4]),
            file(2, 10),
            file(3, 20),
            file(4, 30),
            dir(5, vec![]),
        ],
    };
    let (total, errors) = fsum(&tree, &vec![0], &vec![]);
    assert_eq!(total, 60);
    assert!(errors.is_empty());
}

#[test]
fn single_file_root() {
    let tree = FsTree { nodes: vec![file(1, 2048)] };
    let (total, errors) = fsum(&tree, &vec![0], &vec![]);
    assert_eq!(total, 2048);
    assert!(errors.is_empty());
}

#[test]
fn hard_link_counted_once() {
    // The same file appears under two names in one directory.
    let tree = FsTree { nodes: vec![dir(1, vec![1, 1]), file(2, 7)] };
    let (total, errors) = fsum(&tree, &vec![0], &vec![]);
    assert_eq!(total, 7);
    assert!(errors.is_empty());
}

#[test]
fn hard_link_across_directories_counted_once() {
    // Two subdirectories each list the same 11-byte file.
    let tree = FsTree {
        nodes: vec![
            dir(1, vec![1, 2]),
            dir(2, vec![3]),
            dir(3, vec![3, 4]),
            file(4, 11),
            file(5, 100),
        ],
    };
    let (total, errors) = fsum(&tree, &vec![0], &vec![]);
    assert_eq!(total, 111);
    assert!(errors.is_empty());
}

#[test]
fn cycle_through_ancestor_terminates_and_counts_once() {
    // A subdirectory holds a symbolic link back to the root directory: the
    // traversal terminates and nothing under the root is counted twice.
    let tree = FsTree {
        nodes: vec![
            dir(1, vec![1, 2]),
            file(2, 5),
            dir(3, vec![3, 4]),
            link(4, Some(0)),
            file(5, 6),
        ],
    };
    let (total, errors) = fsum(&tree, &vec![0], &vec![]);
    assert_eq!(total, 11);
    assert!(errors.is_empty());
}

#[test]
fn dangling_symlink_is_silent_zero() {
    let tree = FsTree { nodes: vec![dir(1, vec![1, 2]), file(2, 3), link(3, None)] };
    let (total, errors) = fsum(&tree, &vec![0], &vec![]);
    assert_eq!(total, 3);
    assert!(errors.is_empty(), "a dangling symlink must not be reported");
}

#[test]
fn symlink_to_file_counts_target_size() {
    // The file itself is reachable only through the link.
    let tree = FsTree { nodes: vec![dir(1, vec![1]), link(2, Some(2)), file(3, 9)] };
    let (total, errors) = fsum(&tree, &vec![0], &vec![]);
    assert_eq!(total, 9);
    assert!(errors.is_empty());
}

#[test]
fn symlink_to_directory_is_traversed() {
    let tree = FsTree {
        nodes: vec![dir(1, vec![1]), link(2, Some(2)), dir(3, vec![3]), file(4, 21)],
    };
    let (total, errors) = fsum(&tree, &vec![0], &vec![]);
    assert_eq!(total, 21);
    assert!(errors.is_empty());
}

#[test]
fn file_reachable_directly_and_through_link_counted_once() {
    let tree = FsTree { nodes: vec![dir(1, vec![1, 2]), file(2, 13), link(3, Some(1))] };
    let (total, errors) = fsum(&tree, &vec![0], &vec![]);
    assert_eq!(total, 13);
    assert!(errors.is_empty());
}

#[test]
fn unlistable_directory_reports_one_error_and_rest_is_summed() {
    // The sealed directory is referenced twice; its listing failure is
    // reported exactly once, its contents stay uncounted, and the other
    // paths are still summed.
    let tree = FsTree {
        nodes: vec![
            dir(1, vec![1, 2, 2]),
            file(2, 4),
            sealed_dir(3, vec![3]),
            file(4, 1000),
        ],
    };
    let (total, errors) = fsum(&tree, &vec![0], &vec![]);
    assert_eq!(total, 4);
    assert_eq!(errors.len(), 1);
    assert_eq!(errors[0], TraversalError::List(2));
}

#[test]
fn unreadable_entry_reports_stat_error() {
    let tree = FsTree {
        nodes: vec![
            dir(1, vec![1, 2]),
            file(2, 8),
            Node { dev: 1, ino: 3, kind: NodeKind::Denied },
        ],
    };
    let (total, errors) = fsum(&tree, &vec![0], &vec![]);
    assert_eq!(total, 8);
    assert_eq!(errors.len(), 1);
    assert_eq!(errors[0], TraversalError::Stat(2));
}

#[test]
fn multiple_roots_share_the_deduplication_store() {
    // The same file named as two roots is counted once.
    let tree = FsTree { nodes: vec![file(1, 42), dir(2, vec![0])] };
    let (total, errors) = fsum(&tree, &vec![0, 1, 0], &vec![]);
    assert_eq!(total, 42);
    assert!(errors.is_empty());
}

#[test]
fn total_is_independent_of_the_schedule() {
    let tree = FsTree {
        nodes: vec![
            dir(1, vec![1, 2, 5]),
            dir(2, vec![3, 4]),
            file(3, 100),
            file(4, 23),
            file(5, 7),
            dir(6, vec![6, 1]),
            file(7, 900),
        ],
    };
    let schedules: Vec<Vec<usize>> = vec![
        vec![],
        vec![3, 1, 4, 1, 5, 9, 2, 6],
        vec![7, 7, 7],
        vec![1],
        vec![12, 0, 3, 8, 2],
    ];
    let mut totals: Vec<u128> = Vec::new();
    for schedule in &schedules {
        let (total, errors) = fsum(&tree, &vec![0], schedule);
        assert!(errors.is_empty());
        totals.push(total);
    }
    for total in &totals {
        assert_eq!(*total, 1030);
    }
}

#[test]
fn end_to_end_tree_total_and_rendering() {
    // Three files of 10, 20 and 30 bytes and one empty subdirectory yield
    // total 60, printed as the single line "60".
    let tree = FsTree {
        nodes: vec![
            dir(1, vec![1, 2, 3, 4]),
            file(2, 10),
            file(3, 20),
            file(4, 30),
            dir(5, vec![]),
        ],
    };
    let (total, _) = fsum(&tree, &vec![0], &vec![]);
    assert_eq!(fsum::format::format_large(total), vec!["60".to_string()]);

    // A single 2048-byte file yields 2048 and its KiB line.
    let one = FsTree { nodes: vec![file(1, 2048)] };
    let (total, _) = fsum(&one, &vec![0], &vec![]);
    assert_eq!(
        fsum::format::format_large(total),
        vec!["2048".to_string(), "2 KiB".to_string()]
    );
}

#[test]
fn resolver_classifies_each_fact() {
    assert_eq!(resolve_with(&PathFact::StatError, false), Contribution::Fail);
    assert_eq!(resolve_with(&PathFact::BrokenLink, false), Contribution::Skip);
    let fresh_file = PathFact::Object { dev: 3, ino: 9, dir: false, len: 17 };
    assert_eq!(resolve_with(&fresh_file, false), Contribution::Bytes(17));
    assert_eq!(resolve_with(&fresh_file, true), Contribution::Skip);
    let fresh_dir = PathFact::Object { dev: 3, ino: 10, dir: true, len: 0 };
    assert_eq!(resolve_with(&fresh_dir, false), Contribution::Enqueue);
    assert_eq!(resolve_with(&fresh_dir, true), Contribution::Skip);
}

#[test]
fn resolver_identity_only_for_objects() {
    assert_eq!(identity_of(&PathFact::StatError), None);
    assert_eq!(identity_of(&PathFact::BrokenLink), None);
    assert_eq!(
        identity_of(&PathFact::Object { dev: 3, ino: 9, dir: false, len: 17 }),
        Some(FileIdentity { dev: 3, ino: 9 })
    );
}

#[test]
fn queue_drains_after_matched_completions() {
    let mut q = JobQueue::new();
    assert_eq!(q.take(0), None);
    q.submit(Job::Path(1));
    q.submit(Job::Path(2));
    let first = q.take(7);
    assert!(first.is_some());
    q.submit(Job::Dir(9));
    q.complete();
    let second = q.take(0);
    assert!(second.is_some());
    q.complete();
    let third = q.take(3);
    assert!(third.is_some());
    q.complete();
    assert_eq!(q.take(0), None);
}

#[test]
fn identity_store_reports_repeat_sightings() {
    let mut store = IdentityStore::new();
    assert!(!store.mark_seen(FileIdentity { dev: 1, ino: 2 }));
    assert!(store.mark_seen(FileIdentity { dev: 1, ino: 2 }));
    assert!(!store.mark_seen(FileIdentity { dev: 1, ino: 3 }));
    assert!(!store.mark_seen(FileIdentity { dev: 2, ino: 2 }));
    assert!(store.mark_seen(FileIdentity { dev: 2, ino: 2 }));
}
