//! The traversal engine.
//!
//! The engine sums a snapshot of the filesystem: a table of nodes, each a
//! regular file, a directory listing other nodes, a symbolic link, or an
//! object whose metadata cannot be read.  References — the caller's paths
//! and directory entries — are indices into the table, so one node reached
//! through several references models a hard link, and a symbolic link whose
//! target encloses it models a cycle.
//!
//! The driver seeds the queue with the caller's references and drains it in
//! an arbitrary order given by a schedule.  Whatever the schedule, the total
//! is the sum of the lengths of the reachable regular files, each physical
//! object counted exactly once; this is what makes the result of a
//! multi-threaded run independent of how its workers interleave.

use vstd::prelude::*;
use vstd::set_lib::lemma_int_range;
use vstd::set_lib::lemma_len_subset;
use vstd::set_lib::set_int_range;

use crate::identity::IdentityStore;
use crate::queue::Job;
use crate::queue::JobQueue;
use crate::resolve::identity_of;
use crate::resolve::resolve_with;
use crate::resolve::Contribution;
use crate::resolve::PathFact;

verus! {

broadcast use
    vstd::multiset::group_multiset_axioms,
    vstd::seq_lib::group_to_multiset_ensures,
    vstd::set::group_set_axioms,
;

/// What one node of a snapshot is.
#[derive(Debug)]
pub enum NodeKind {
    /// A regular file of the given byte length.
    File { len: u64 },
    /// A directory; `entries` holds the references its listing yields.
    /// `listable` is false when the directory cannot be listed (permission
    /// denial): the listing then fails although the directory itself stats.
    Dir { entries: Vec<usize>, listable: bool },
    /// A symbolic link, dangling when `target` is `None`.  A target names
    /// the file or directory the link finally resolves to.
    Symlink { target: Option<usize> },
    /// An object whose own metadata cannot be read.
    Denied,
}

/// One node: the identity of the physical object and what it is.
#[derive(Debug)]
pub struct Node {
    pub dev: u64,
    pub ino: u64,
    pub kind: NodeKind,
}

/// A snapshot of the part of a filesystem one traversal can see.
#[derive(Debug)]
pub struct FsTree {
    pub nodes: Vec<Node>,
}

/// An error reported during a traversal, with the failing reference as
/// context.  Dangling symbolic links are not errors and are never reported.
#[derive(Clone, Copy, PartialEq, Eq, Structural, Debug)]
pub enum TraversalError {
    /// Reading the metadata of this reference failed.
    Stat(usize),
    /// Listing this directory failed.
    List(usize),
}

impl FsTree {
    /// Number of nodes.
    pub open spec fn size(self) -> int {
        self.nodes@.len() as int
    }

    /// The node a reference names.
    pub open spec fn node(self, i: int) -> Node {
        self.nodes@[i]
    }

    /// The identity of a node, as the deduplication store records it.
    pub open spec fn key(self, i: int) -> (u64, u64) {
        (self.node(i).dev, self.node(i).ino)
    }

    pub open spec fn is_file(self, i: int) -> bool {
        self.node(i).kind is File
    }

    pub open spec fn is_dir(self, i: int) -> bool {
        self.node(i).kind is Dir
    }

    pub open spec fn is_symlink(self, i: int) -> bool {
        self.node(i).kind is Symlink
    }

    pub open spec fn is_denied(self, i: int) -> bool {
        self.node(i).kind is Denied
    }

    /// Byte length of a regular file, zero for anything else.
    pub open spec fn file_len(self, i: int) -> u64 {
        match self.node(i).kind {
            NodeKind::File { len } => len,
            _ => 0,
        }
    }

    /// The references a directory's listing yields.
    pub open spec fn entries(self, i: int) -> Seq<usize> {
        match self.node(i).kind {
            NodeKind::Dir { entries, .. } => entries@,
            _ => Seq::<usize>::empty(),
        }
    }

    /// Whether a directory can be listed.
    pub open spec fn listable(self, i: int) -> bool {
        match self.node(i).kind {
            NodeKind::Dir { listable, .. } => listable,
            _ => false,
        }
    }

    /// The target of a symbolic link, if any.
    pub open spec fn sym_target(self, i: int) -> Option<usize> {
        match self.node(i).kind {
            NodeKind::Symlink { target } => target,
            _ => None,
        }
    }

    /// A snapshot is well formed when every directory entry stays inside the
    /// table, every symbolic link target is an in-range file or directory
    /// (a link is followed to the object it finally resolves to), and
    /// identities are what they claim to be: two distinct nodes are two
    /// distinct physical objects.
    pub open spec fn wf(self) -> bool {
        &&& forall|d: int, j: int|
            0 <= d < self.size() && 0 <= j < self.entries(d).len()
                ==> (#[trigger] self.entries(d)[j] as int) < self.size()
        &&& forall|i: int|
            0 <= i < self.size() ==> match #[trigger] self.sym_target(i) {
                Some(t) => (t as int) < self.size() && (self.is_file(t as int) || self.is_dir(
                    t as int,
                )),
                None => true,
            }
        &&& forall|i: int, j: int|
            0 <= i < self.size() && 0 <= j < self.size() && i != j ==> #[trigger] self.key(i)
                != #[trigger] self.key(j)
    }

    /// The caller's references all lie inside the table.
    pub open spec fn roots_ok(self, roots: Seq<usize>) -> bool {
        forall|j: int| 0 <= j < roots.len() ==> (#[trigger] roots[j] as int) < self.size()
    }

    /// The object a reference finally resolves to: a file or directory
    /// resolves to itself, a symbolic link to its target.  `None` for a
    /// dangling link or an unreadable object: nothing to count there.
    pub open spec fn target_of(self, i: int) -> Option<int> {
        if self.is_file(i) || self.is_dir(i) {
            Some(i)
        } else {
            match self.sym_target(i) {
                Some(t) => Some(t as int),
                None => None,
            }
        }
    }

    /// `s` contains whatever the reference `r` resolves to.
    pub open spec fn absorbs(self, s: Set<int>, r: int) -> bool {
        match self.target_of(r) {
            Some(n) => s.contains(n),
            None => true,
        }
    }

    /// A set of nodes closed under the traversal: it absorbs every root
    /// reference and every entry of every listable directory it contains.
    pub open spec fn closed_set(self, roots: Seq<usize>, s: Set<int>) -> bool {
        &&& forall|j: int| 0 <= j < roots.len() ==> self.absorbs(s, #[trigger] roots[j] as int)
        &&& forall|d: int, j: int|
            s.contains(d) && 0 <= d < self.size() && self.is_dir(d) && self.listable(d) && 0 <= j
                < self.entries(d).len() ==> self.absorbs(s, #[trigger] self.entries(d)[j] as int)
    }

    /// Everything a traversal of this snapshot must visit: the nodes that
    /// belong to every closed set.
    pub open spec fn reachable(self, roots: Seq<usize>) -> Set<int> {
        Set::new(
            |n: int|
                forall|s: Set<int>| #[trigger] self.closed_set(roots, s) ==> s.contains(n),
        )
    }

    /// Sum of the lengths of the regular files among the first `k` nodes
    /// that lie in `s`.  Each node appears once, so each physical object is
    /// counted once however many references lead to it.
    pub open spec fn sum_files_in(self, s: Set<int>, k: int) -> int
        decreases k,
    {
        if k <= 0 {
            0
        } else {
            self.sum_files_in(s, k - 1) + if s.contains(k - 1) && self.is_file(k - 1) {
                self.file_len(k - 1) as int
            } else {
                0
            }
        }
    }

    /// The total a traversal of this snapshot yields: the sum of the
    /// lengths of the reachable regular files.
    pub open spec fn spec_total(self, roots: Seq<usize>) -> int {
        self.sum_files_in(self.reachable(roots), self.size())
    }

    /// Sum of the lengths of all regular files among the first `k` nodes:
    /// the naive recursive total of a tree without links.
    pub open spec fn sum_all_files(self, k: int) -> int
        decreases k,
    {
        if k <= 0 {
            0
        } else {
            self.sum_all_files(k - 1) + if self.is_file(k - 1) {
                self.file_len(k - 1) as int
            } else {
                0
            }
        }
    }

    /// The nodes whose identities a set of recorded keys covers.
    pub open spec fn visited(self, keys: Set<(u64, u64)>) -> Set<int> {
        Set::new(|i: int| 0 <= i < self.size() && keys.contains(self.key(i)))
    }
}

/// What classifying one reference did, as the worker sees it.
enum RefOutcome {
    /// A regular file seen for the first time: its length.
    Counted(u64),
    /// A directory seen for the first time: the node to list.
    Expand(usize),
    /// Nothing to do: a duplicate or a dangling link.
    Quiet,
    /// A metadata failure to report.
    Reported,
}

/// The fact the metadata of a resolved object yields.
fn object_fact(tree: &FsTree, n: usize) -> (f: PathFact)
    requires
        (n as int) < tree.nodes@.len(),
        tree.is_file(n as int) || tree.is_dir(n as int),
    ensures
        f == (PathFact::Object {
            dev: tree.node(n as int).dev,
            ino: tree.node(n as int).ino,
            dir: tree.is_dir(n as int),
            len: tree.file_len(n as int),
        }),
{
    let node = &tree.nodes[n];
    match &node.kind {
        NodeKind::File { len } => PathFact::Object {
            dev: node.dev,
            ino: node.ino,
            dir: false,
            len: *len,
        },
        NodeKind::Dir { .. } => PathFact::Object { dev: node.dev, ino: node.ino, dir: true, len: 0 },
        _ => {
            proof {
                assert(false);
            }
            PathFact::StatError
        },
    }
}

/// What the filesystem reports for one reference: the path fact, and the
/// resolved node when there is one.
fn node_probe(tree: &FsTree, p: usize) -> (r: (PathFact, Option<usize>))
    requires
        tree.wf(),
        (p as int) < tree.nodes@.len(),
    ensures
        match tree.target_of(p as int) {
            Some(n) => {
                &&& 0 <= n < tree.size()
                &&& r.1 == Some(n as usize)
                &&& r.0 == (PathFact::Object {
                    dev: tree.node(n).dev,
                    ino: tree.node(n).ino,
                    dir: tree.is_dir(n),
                    len: tree.file_len(n),
                })
            },
            None => r.1 is None && r.0 == (if tree.is_denied(p as int) {
                PathFact::StatError
            } else {
                PathFact::BrokenLink
            }),
        },
{
    match &tree.nodes[p].kind {
        NodeKind::File { .. } | NodeKind::Dir { .. } => (object_fact(tree, p), Some(p)),
        NodeKind::Symlink { target } => match target {
            Some(t) => (object_fact(tree, *t), Some(*t)),
            None => (PathFact::BrokenLink, None),
        },
        NodeKind::Denied => (PathFact::StatError, None),
    }
}

/// Classify one reference: resolve it, record its identity, and decide its
/// contribution.  The store records the resolved object's identity; a
/// failed or dangling reference records nothing.
fn process_ref(tree: &FsTree, p: usize, store: &mut IdentityStore) -> (out: RefOutcome)
    requires
        tree.wf(),
        (p as int) < tree.nodes@.len(),
    ensures
        match tree.target_of(p as int) {
            Some(n) => {
                &&& 0 <= n < tree.size()
                &&& final(store).seen() == old(store).seen().insert(tree.key(n))
                &&& (if old(store).seen().contains(tree.key(n)) {
                    out is Quiet
                } else if tree.is_dir(n) {
                    out == RefOutcome::Expand(n as usize)
                } else {
                    tree.is_file(n) && out == RefOutcome::Counted(tree.file_len(n))
                })
            },
            None => {
                &&& final(store).seen() == old(store).seen()
                &&& (if tree.is_denied(p as int) {
                    out is Reported
                } else {
                    out is Quiet
                })
            },
        },
{
    let probe = node_probe(tree, p);
    let fact = probe.0;
    let already = match identity_of(&fact) {
        Some(id) => store.mark_seen(id),
        None => false,
    };
    let c = resolve_with(&fact, already);
    match c {
        Contribution::Bytes(b) => RefOutcome::Counted(b),
        Contribution::Enqueue => match probe.1 {
            Some(t) => RefOutcome::Expand(t),
            None => {
                proof {
                    assert(false);
                }
                RefOutcome::Quiet
            },
        },
        Contribution::Skip => RefOutcome::Quiet,
        Contribution::Fail => RefOutcome::Reported,
    }
}

/// No node is a symbolic link.
pub open spec fn no_symlinks(tree: FsTree) -> bool {
    forall|i: int| 0 <= i < tree.size() ==> !tree.is_symlink(i)
}

/// No two directory entries name the same node, and no caller reference
/// repeats or doubles a directory entry: every node has at most one name.
pub open spec fn no_hard_links(tree: FsTree, roots: Seq<usize>) -> bool {
    &&& forall|d1: int, j1: int, d2: int, j2: int|
        #![trigger tree.entries(d1)[j1], tree.entries(d2)[j2]]
        0 <= d1 < tree.size() && 0 <= j1 < tree.entries(d1).len() && 0 <= d2 < tree.size() && 0
            <= j2 < tree.entries(d2).len() && !(d1 == d2 && j1 == j2) ==> tree.entries(d1)[j1]
            != tree.entries(d2)[j2]
    &&& forall|j1: int, j2: int|
        #![trigger roots[j1], roots[j2]]
        0 <= j1 < roots.len() && 0 <= j2 < roots.len() && j1 != j2 ==> roots[j1] != roots[j2]
    &&& forall|d1: int, j1: int, j2: int|
        #![trigger tree.entries(d1)[j1], roots[j2]]
        0 <= d1 < tree.size() && 0 <= j1 < tree.entries(d1).len() && 0 <= j2 < roots.len()
            ==> tree.entries(d1)[j1] != roots[j2]
}

/// A set holding every node below `k` sums to the sum over all files.
proof fn lemma_sum_full(tree: FsTree, s: Set<int>, k: int)
    requires
        forall|i: int| 0 <= i < k ==> s.contains(i),
    ensures
        tree.sum_files_in(s, k) == tree.sum_all_files(k),
    decreases k,
{
    if k > 0 {
        lemma_sum_full(tree, s, k - 1);
    }
}

/// On a tree with no hard links and no symbolic links — every node has one
/// name and links play no part — whose nodes all lie under the given
/// references, the traversal's total is the naive recursive total: the sum
/// of every regular file's length.
pub proof fn lemma_plain_tree_total(tree: FsTree, roots: Seq<usize>)
    requires
        tree.wf(),
        tree.roots_ok(roots),
        no_symlinks(tree),
        no_hard_links(tree, roots),
        forall|i: int| 0 <= i < tree.size() ==> tree.reachable(roots).contains(i),
    ensures
        tree.spec_total(roots) == tree.sum_all_files(tree.size()),
{
    lemma_sum_full(tree, tree.reachable(roots), tree.size());
}

/// However many directory entries or caller references lead to it — two
/// hard-linked names, say — a reachable regular file's length stands in
/// the total exactly once: the total is its length plus the sum over the
/// other reachable nodes.
pub proof fn lemma_file_counted_once(tree: FsTree, roots: Seq<usize>, f: int)
    requires
        tree.wf(),
        tree.roots_ok(roots),
        tree.reachable(roots).contains(f),
        tree.is_file(f),
    ensures
        tree.spec_total(roots) == tree.file_len(f) + tree.sum_files_in(
            tree.reachable(roots).remove(f),
            tree.size(),
        ),
{
    lemma_reachable_in_range(tree, roots, f);
    let s = tree.reachable(roots).remove(f);
    lemma_sum_insert(tree, s, f, tree.size());
    assert(s.insert(f) =~= tree.reachable(roots));
}

/// A sum over any set of nodes stays within the sum over all of them.
proof fn lemma_sum_within(tree: FsTree, s: Set<int>, k: int)
    ensures
        tree.sum_files_in(s, k) <= tree.sum_all_files(k),
    decreases k,
{
    if k > 0 {
        lemma_sum_within(tree, s, k - 1);
    }
}

/// Whatever the link structure — symbolic links forming cycles back into
/// ancestor directories included — the total never exceeds the sum of
/// every regular file counted once: revisiting a node adds nothing.
pub proof fn lemma_no_double_count(tree: FsTree, roots: Seq<usize>)
    ensures
        tree.spec_total(roots) <= tree.sum_all_files(tree.size()),
{
    lemma_sum_within(tree, tree.reachable(roots), tree.size());
}

/// Two snapshots that differ in one directory naming one extra reference
/// and in nothing else.
pub open spec fn extended_by_ref(t1: FsTree, t2: FsTree, d: int, x: usize) -> bool {
    &&& t2.size() == t1.size()
    &&& 0 <= d < t1.size()
    &&& t1.is_dir(d)
    &&& t2.is_dir(d)
    &&& forall|i: int| 0 <= i < t1.size() && i != d ==> #[trigger] t2.node(i) == t1.node(i)
    &&& t2.key(d) == t1.key(d)
    &&& t2.listable(d) == t1.listable(d)
    &&& t2.entries(d) == t1.entries(d).push(x)
}

/// References do not decide what a node is, so two snapshots that differ
/// only in one directory's listing resolve every reference alike.
proof fn lemma_targets_agree(t1: FsTree, t2: FsTree, d: int, x: usize)
    requires
        extended_by_ref(t1, t2, d, x),
    ensures
        forall|i: int|
            0 <= i < t1.size() ==> #[trigger] t2.target_of(i) == t1.target_of(i),
{
    assert forall|i: int|
        0 <= i < t1.size() implies #[trigger] t2.target_of(i) == t1.target_of(i) by {
        if i != d {
            assert(t2.node(i) == t1.node(i));
        }
    }
}

/// Sums agree on snapshots whose files agree.
proof fn lemma_sum_same_files(t1: FsTree, t2: FsTree, s: Set<int>, k: int)
    requires
        forall|i: int|
            0 <= i < k ==> #[trigger] t1.is_file(i) == t2.is_file(i) && t1.file_len(i)
                == t2.file_len(i),
    ensures
        t1.sum_files_in(s, k) == t2.sum_files_in(s, k),
    decreases k,
{
    if k > 0 {
        lemma_sum_same_files(t1, t2, s, k - 1);
    }
}

/// A cycle-closing reference adds nothing.  Extending one directory with
/// one more reference — a symbolic link back into an ancestor directory,
/// say — whose target is already reachable leaves the reachable set, and
/// with it the total, exactly as it was: the target is not counted again.
pub proof fn lemma_cycle_reference_total_unchanged(
    t1: FsTree,
    t2: FsTree,
    roots: Seq<usize>,
    d: int,
    x: usize,
)
    requires
        t1.wf(),
        t2.wf(),
        t1.roots_ok(roots),
        extended_by_ref(t1, t2, d, x),
        t2.absorbs(t1.reachable(roots), x as int),
    ensures
        t2.reachable(roots) == t1.reachable(roots),
        t2.spec_total(roots) == t1.spec_total(roots),
{
    let r1 = t1.reachable(roots);
    let r2 = t2.reachable(roots);
    lemma_targets_agree(t1, t2, d, x);
    assert(t2.closed_set(roots, r1)) by {
        assert forall|j: int| 0 <= j < roots.len() implies t2.absorbs(
            r1,
            #[trigger] roots[j] as int,
        ) by {
            lemma_reachable_root(t1, roots, j);
        }
        assert forall|dd: int, j: int|
            r1.contains(dd) && 0 <= dd < t2.size() && t2.is_dir(dd) && t2.listable(dd) && 0 <= j
                < t2.entries(dd).len() implies t2.absorbs(
            r1,
            #[trigger] t2.entries(dd)[j] as int,
        ) by {
            if dd != d {
                assert(t2.node(dd) == t1.node(dd));
                lemma_reachable_entry(t1, roots, dd, j);
            } else {
                if j < t1.entries(d).len() {
                    assert(t2.entries(d)[j] == t1.entries(d)[j]);
                    lemma_reachable_entry(t1, roots, d, j);
                } else {
                    assert(t2.entries(d)[j] == x);
                }
            }
        }
    }
    assert forall|n: int| r2.contains(n) implies r1.contains(n) by {
        assert(t2.closed_set(roots, r1));
    }
    assert forall|n: int| r1.contains(n) implies r2.contains(n) by {
        assert forall|s: Set<int>| #[trigger] t2.closed_set(roots, s) implies t1.closed_set(
            roots,
            s,
        ) by {
            assert forall|j: int| 0 <= j < roots.len() implies t1.absorbs(
                s,
                #[trigger] roots[j] as int,
            ) by {
                assert(t2.absorbs(s, roots[j] as int));
            }
            assert forall|dd: int, j: int|
                s.contains(dd) && 0 <= dd < t1.size() && t1.is_dir(dd) && t1.listable(dd) && 0
                    <= j < t1.entries(dd).len() implies t1.absorbs(
                s,
                #[trigger] t1.entries(dd)[j] as int,
            ) by {
                if dd != d {
                    assert(t2.node(dd) == t1.node(dd));
                    assert(t2.absorbs(s, t2.entries(dd)[j] as int));
                } else {
                    assert(t2.entries(d)[j] == t1.entries(d)[j]);
                    assert(t2.absorbs(s, t2.entries(d)[j] as int));
                }
            }
        }
    }
    assert(r1 =~= r2);
    assert forall|i: int|
        0 <= i < t1.size() implies #[trigger] t1.is_file(i) == t2.is_file(i) && t1.file_len(i)
            == t2.file_len(i) by {
        if i != d {
            assert(t2.node(i) == t1.node(i));
        }
    }
    lemma_sum_same_files(t1, t2, r1, t1.size());
}

/// A reachable node lies inside the table.
pub proof fn lemma_reachable_in_range(tree: FsTree, roots: Seq<usize>, n: int)
    requires
        tree.wf(),
        tree.roots_ok(roots),
        tree.reachable(roots).contains(n),
    ensures
        0 <= n < tree.size(),
{
    let full = set_int_range(0, tree.size());
    assert(tree.closed_set(roots, full)) by {
        assert forall|j: int| 0 <= j < roots.len() implies tree.absorbs(
            full,
            #[trigger] roots[j] as int,
        ) by {
            lemma_absorbs_range(tree, roots[j] as int);
        }
        assert forall|d: int, j: int|
            full.contains(d) && 0 <= d < tree.size() && tree.is_dir(d) && tree.listable(d) && 0 <= j
                < tree.entries(d).len() implies tree.absorbs(
            full,
            #[trigger] tree.entries(d)[j] as int,
        ) by {
            lemma_absorbs_range(tree, tree.entries(d)[j] as int);
        }
    }
    assert(full.contains(n));
}

/// In a well-formed snapshot, an in-range reference resolves, if at all, to
/// an in-range node.
proof fn lemma_absorbs_range(tree: FsTree, r: int)
    requires
        tree.wf(),
        0 <= r < tree.size(),
    ensures
        tree.absorbs(set_int_range(0, tree.size()), r),
{
    match tree.target_of(r) {
        Some(n) => {
            if tree.is_file(r) || tree.is_dir(r) {
            } else {
                assert(tree.sym_target(r) is Some);
            }
        },
        None => {},
    }
}

/// What a root reference resolves to is reachable.
pub proof fn lemma_reachable_root(tree: FsTree, roots: Seq<usize>, j: int)
    requires
        0 <= j < roots.len(),
    ensures
        tree.absorbs(tree.reachable(roots), roots[j] as int),
{
    match tree.target_of(roots[j] as int) {
        Some(n) => {
            assert forall|s: Set<int>| #[trigger] tree.closed_set(roots, s) implies s.contains(
                n,
            ) by {
                assert(tree.absorbs(s, roots[j] as int));
            }
            assert(tree.reachable(roots).contains(n));
        },
        None => {},
    }
}

/// What an entry of a reachable listable directory resolves to is reachable.
pub proof fn lemma_reachable_entry(tree: FsTree, roots: Seq<usize>, d: int, j: int)
    requires
        tree.reachable(roots).contains(d),
        0 <= d < tree.size(),
        tree.is_dir(d),
        tree.listable(d),
        0 <= j < tree.entries(d).len(),
    ensures
        tree.absorbs(tree.reachable(roots), tree.entries(d)[j] as int),
{
    match tree.target_of(tree.entries(d)[j] as int) {
        Some(n) => {
            assert forall|s: Set<int>| #[trigger] tree.closed_set(roots, s) implies s.contains(
                n,
            ) by {
                assert(s.contains(d));
                assert(tree.absorbs(s, tree.entries(d)[j] as int));
            }
            assert(tree.reachable(roots).contains(n));
        },
        None => {},
    }
}

/// Two sets that agree on the first `k` nodes have the same file sum.
proof fn lemma_sum_congruent(tree: FsTree, s1: Set<int>, s2: Set<int>, k: int)
    requires
        forall|i: int| 0 <= i < k ==> (s1.contains(i) <==> s2.contains(i)),
    ensures
        tree.sum_files_in(s1, k) == tree.sum_files_in(s2, k),
    decreases k,
{
    if k > 0 {
        lemma_sum_congruent(tree, s1, s2, k - 1);
    }
}

/// Adding one node to a set adds exactly that node's file length to the sum.
pub proof fn lemma_sum_insert(tree: FsTree, s: Set<int>, n: int, k: int)
    requires
        0 <= n < k,
        !s.contains(n),
    ensures
        tree.sum_files_in(s.insert(n), k) == tree.sum_files_in(s, k) + if tree.is_file(n) {
            tree.file_len(n) as int
        } else {
            0
        },
    decreases k,
{
    if n == k - 1 {
        lemma_sum_congruent(tree, s.insert(n), s, k - 1);
    } else {
        lemma_sum_insert(tree, s, n, k - 1);
    }
}

/// A file sum is bounded by the node count times the largest file length.
proof fn lemma_sum_bound(tree: FsTree, s: Set<int>, k: int)
    requires
        k >= 0,
    ensures
        0 <= tree.sum_files_in(s, k) <= k * (u64::MAX as int),
    decreases k,
{
    if k > 0 {
        lemma_sum_bound(tree, s, k - 1);
        assert(k * (u64::MAX as int) == (k - 1) * (u64::MAX as int) + (u64::MAX as int))
            by (nonlinear_arith);
    }
}

/// Recording the key of node `n` makes exactly `n` visited, no other node.
pub proof fn lemma_visited_insert(tree: FsTree, keys: Set<(u64, u64)>, n: int)
    requires
        tree.wf(),
        0 <= n < tree.size(),
    ensures
        tree.visited(keys.insert(tree.key(n))) == tree.visited(keys).insert(n),
{
    assert(tree.visited(keys.insert(tree.key(n))) =~= tree.visited(keys).insert(n)) by {
        assert forall|i: int| tree.visited(keys.insert(tree.key(n))).contains(i) implies tree
            .visited(keys).insert(n).contains(i) by {
            if i != n && tree.key(i) == tree.key(n) {
                assert(false);
            }
        }
    }
}

/// The visited set is finite and no larger than the table.
pub proof fn lemma_visited_card(tree: FsTree, keys: Set<(u64, u64)>)
    ensures
        tree.visited(keys).finite(),
        tree.visited(keys).len() <= tree.size(),
{
    lemma_int_range(0, tree.size());
    lemma_len_subset(tree.visited(keys), set_int_range(0, tree.size()));
}

/// A set with no member below `k` sums to zero.
proof fn lemma_sum_none(tree: FsTree, s: Set<int>, k: int)
    requires
        forall|i: int| 0 <= i < k ==> !s.contains(i),
    ensures
        tree.sum_files_in(s, k) == 0,
    decreases k,
{
    if k > 0 {
        lemma_sum_none(tree, s, k - 1);
    }
}

/// An error report is about a real failure: an unreadable reference, or a
/// reachable directory that cannot be listed.
pub open spec fn err_ok(tree: FsTree, roots: Seq<usize>, e: TraversalError) -> bool {
    match e {
        TraversalError::Stat(p) => (p as int) < tree.size() && tree.is_denied(p as int),
        TraversalError::List(d) => (d as int) < tree.size() && tree.is_dir(d as int)
            && !tree.listable(d as int) && tree.reachable(roots).contains(d as int),
    }
}

/// A pending job is sensible: a path job carries one of the caller's
/// references, a directory job carries a visited directory.
spec fn job_ok(tree: FsTree, roots: Seq<usize>, v: Set<int>, job: Job) -> bool {
    match job {
        Job::Path(p) => (p as int) < tree.size() && exists|jj: int|
            0 <= jj < roots.len() && roots[jj] == p,
        Job::Dir(t) => (t as int) < tree.size() && tree.is_dir(t as int) && v.contains(t as int),
    }
}

spec fn pend_ok(tree: FsTree, roots: Seq<usize>, v: Set<int>, pend: Seq<Job>) -> bool {
    forall|k: int| #![trigger pend[k]] 0 <= k < pend.len() ==> job_ok(tree, roots, v, pend[k])
}

/// Every root reference is absorbed by the visited set or still pending.
spec fn roots_pending(tree: FsTree, roots: Seq<usize>, v: Set<int>, pend: Seq<Job>) -> bool {
    forall|jj: int| #![trigger roots[jj]]
        0 <= jj < roots.len() ==> tree.absorbs(v, roots[jj] as int) || pend.to_multiset().count(
            Job::Path(roots[jj]),
        ) >= 1
}

/// Every entry of directory `d` is absorbed by `v`.
spec fn dir_expanded(tree: FsTree, v: Set<int>, d: int) -> bool {
    forall|j: int| #![trigger tree.entries(d)[j]]
        0 <= j < tree.entries(d).len() ==> tree.absorbs(v, tree.entries(d)[j] as int)
}

spec fn dir_done_or_queued(tree: FsTree, v: Set<int>, pend: Seq<Job>, d: int) -> bool {
    dir_expanded(tree, v, d) || pend.to_multiset().count(Job::Dir(d as usize)) >= 1
}

/// Every visited listable directory, except the one numbered `ex`, is fully
/// expanded or has a pending listing job.  Pass a negative `ex` to except
/// no directory.
spec fn dirs_pending_except(
    tree: FsTree,
    v: Set<int>,
    pend: Seq<Job>,
    ex: int,
) -> bool {
    forall|d: int| #![trigger v.contains(d)]
        v.contains(d) && 0 <= d < tree.size() && tree.is_dir(d) && tree.listable(d) && d != ex
            ==> dir_done_or_queued(tree, v, pend, d)
}

spec fn dirs_pending(tree: FsTree, v: Set<int>, pend: Seq<Job>) -> bool {
    dirs_pending_except(tree, v, pend, -1)
}

/// The listing-failure count for one directory is right: one report per
/// visited unlistable directory whose listing job is no longer pending,
/// none otherwise.
spec fn list_err_count_ok(
    tree: FsTree,
    v: Set<int>,
    pend: Seq<Job>,
    errs: Seq<TraversalError>,
    d: usize,
) -> bool {
    if v.contains(d as int) && tree.is_dir(d as int) && !tree.listable(d as int) {
        errs.to_multiset().count(TraversalError::List(d)) + pend.to_multiset().count(Job::Dir(d))
            == 1
    } else {
        errs.to_multiset().count(TraversalError::List(d)) == 0
    }
}

spec fn list_errors_exact(
    tree: FsTree,
    v: Set<int>,
    pend: Seq<Job>,
    errs: Seq<TraversalError>,
) -> bool {
    forall|d: usize| #[trigger] list_err_count_ok(tree, v, pend, errs, d)
}

/// Every reported error is about a real failure.
spec fn errs_ok(tree: FsTree, roots: Seq<usize>, errs: Seq<TraversalError>) -> bool {
    forall|k: int| 0 <= k < errs.len() ==> err_ok(tree, roots, #[trigger] errs[k])
}

/// The visited set only holds reachable nodes.
spec fn v_sound(tree: FsTree, roots: Seq<usize>, v: Set<int>) -> bool {
    forall|n: int| #[trigger] v.contains(n) ==> tree.reachable(roots).contains(n)
}

/// How recording one reference changes the visited set: nothing for a
/// failed or dangling reference; otherwise exactly the resolved node joins,
/// and it is reachable as long as the reference was absorbed by the
/// reachable set.
proof fn lemma_after_ref(
    tree: FsTree,
    roots: Seq<usize>,
    keys0: Set<(u64, u64)>,
    keys1: Set<(u64, u64)>,
    p: int,
)
    requires
        tree.wf(),
        0 <= p < tree.size(),
        tree.absorbs(tree.reachable(roots), p),
        match tree.target_of(p) {
            Some(n) => keys1 == keys0.insert(tree.key(n)),
            None => keys1 == keys0,
        },
        v_sound(tree, roots, tree.visited(keys0)),
    ensures
        v_sound(tree, roots, tree.visited(keys1)),
        tree.absorbs(tree.visited(keys1), p),
        forall|m: int| tree.visited(keys0).contains(m) ==> #[trigger] tree.visited(
            keys1,
        ).contains(m),
        match tree.target_of(p) {
            Some(n) => 0 <= n < tree.size() && tree.visited(keys1) == (if keys0.contains(
                tree.key(n),
            ) {
                tree.visited(keys0)
            } else {
                tree.visited(keys0).insert(n)
            }) && (keys0.contains(tree.key(n)) <==> tree.visited(keys0).contains(n)),
            None => tree.visited(keys1) == tree.visited(keys0),
        },
{
    match tree.target_of(p) {
        Some(n) => {
            assert(0 <= n < tree.size());
            lemma_visited_insert(tree, keys0, n);
            if keys0.contains(tree.key(n)) {
                assert(tree.visited(keys0).insert(n) =~= tree.visited(keys0));
            }
        },
        None => {},
    }
}

/// Invariant restoration for one processed reference `p`: given the state
/// delta one worker step produces — nothing for a duplicate, failed or
/// dangling reference beyond a possible report, or one new visited node
/// with a listing job pushed when it is a directory — the queue, error and
/// obligation invariants carry over to the state after the step.
proof fn lemma_ref_restore(
    tree: FsTree,
    roots: Seq<usize>,
    v0: Set<int>,
    vn: Set<int>,
    pend_a: Seq<Job>,
    pend_n: Seq<Job>,
    errs0: Seq<TraversalError>,
    errs_n: Seq<TraversalError>,
    p: int,
    ex: int,
)
    requires
        tree.wf(),
        tree.size() <= usize::MAX,
        0 <= p < tree.size(),
        pend_ok(tree, roots, v0, pend_a),
        forall|jj: int| #![trigger roots[jj]]
            0 <= jj < roots.len() ==> tree.absorbs(v0, roots[jj] as int)
                || pend_a.to_multiset().count(Job::Path(roots[jj])) >= 1 || roots[jj] as int == p,
        dirs_pending_except(tree, v0, pend_a, ex),
        list_errors_exact(tree, v0, pend_a, errs0),
        errs_ok(tree, roots, errs0),
        forall|m: int| v0.contains(m) ==> #[trigger] vn.contains(m),
        tree.absorbs(vn, p),
        match tree.target_of(p) {
            Some(n) => 0 <= n < tree.size() && (if v0.contains(n) {
                vn == v0 && pend_n == pend_a && errs_n == errs0
            } else {
                vn == v0.insert(n) && errs_n == errs0 && (if tree.is_dir(n) {
                    pend_n == pend_a.push(Job::Dir(n as usize))
                } else {
                    pend_n == pend_a
                })
            }),
            None => vn == v0 && pend_n == pend_a && (if tree.is_denied(p) {
                errs_n == errs0.push(TraversalError::Stat(p as usize))
            } else {
                errs_n == errs0
            }),
        },
    ensures
        pend_ok(tree, roots, vn, pend_n),
        roots_pending(tree, roots, vn, pend_n),
        dirs_pending_except(tree, vn, pend_n, ex),
        list_errors_exact(tree, vn, pend_n, errs_n),
        errs_ok(tree, roots, errs_n),
{
    match tree.target_of(p) {
        Some(n) => {
            if !v0.contains(n) && tree.is_dir(n) {
                assert(pend_a.push(Job::Dir(n as usize)).to_multiset() =~= pend_a.to_multiset()
                    .insert(Job::Dir(n as usize)));
                if pend_a.to_multiset().count(Job::Dir(n as usize)) > 0 {
                    assert(pend_a.contains(Job::Dir(n as usize)));
                    let k = choose|k: int|
                        0 <= k < pend_a.len() && pend_a[k] == Job::Dir(n as usize);
                    assert(job_ok(tree, roots, v0, pend_a[k]));
                    assert(false);
                }
            }
        },
        None => {
            if tree.is_denied(p) {
                assert(errs0.push(TraversalError::Stat(p as usize)).to_multiset() =~= errs0.to_multiset()
                    .insert(TraversalError::Stat(p as usize)));
            }
        },
    }
    assert forall|k: int| 0 <= k < pend_n.len() implies job_ok(
        tree,
        roots,
        vn,
        #[trigger] pend_n[k],
    ) by {
        if k < pend_a.len() {
            assert(job_ok(tree, roots, v0, pend_a[k]));
            match pend_a[k] {
                Job::Path(_) => {},
                Job::Dir(t) => {
                    assert(vn.contains(t as int));
                },
            }
        }
    }
    assert forall|jj: int| #![trigger roots[jj]] 0 <= jj < roots.len() implies tree.absorbs(
        vn,
        roots[jj] as int,
    ) || pend_n.to_multiset().count(Job::Path(roots[jj])) >= 1 by {
        if roots[jj] as int == p {
        } else if tree.absorbs(v0, roots[jj] as int) {
            match tree.target_of(roots[jj] as int) {
                Some(t) => {
                    assert(vn.contains(t));
                },
                None => {},
            }
        } else {
            assert(pend_a.to_multiset().count(Job::Path(roots[jj])) >= 1);
        }
    }
    assert forall|d: int| #![trigger vn.contains(d)]
        vn.contains(d) && 0 <= d < tree.size() && tree.is_dir(d) && tree.listable(d) && d
            != ex implies dir_done_or_queued(tree, vn, pend_n, d) by {
        if v0.contains(d) {
            assert(dir_done_or_queued(tree, v0, pend_a, d));
            if dir_expanded(tree, v0, d) {
                assert forall|j2: int| #![trigger tree.entries(d)[j2]]
                    0 <= j2 < tree.entries(d).len() implies tree.absorbs(
                    vn,
                    tree.entries(d)[j2] as int,
                ) by {
                    assert(tree.absorbs(v0, tree.entries(d)[j2] as int));
                    match tree.target_of(tree.entries(d)[j2] as int) {
                        Some(t) => {
                            assert(v0.contains(t));
                            assert(vn.contains(t));
                        },
                        None => {},
                    }
                }
                assert(dir_expanded(tree, vn, d));
            } else {
                assert(pend_a.to_multiset().count(Job::Dir(d as usize)) >= 1);
            }
        } else {
            assert(pend_n.to_multiset().count(Job::Dir(d as usize)) >= 1);
        }
    }
    assert forall|d2: usize| true implies #[trigger] list_err_count_ok(
        tree,
        vn,
        pend_n,
        errs_n,
        d2,
    ) by {
        assert(list_err_count_ok(tree, v0, pend_a, errs0, d2));
        match tree.target_of(p) {
            Some(n) => {
                if !v0.contains(n) && tree.is_dir(n) && d2 as int != n {
                    assert(Job::Dir(d2) != Job::Dir(n as usize));
                }
            },
            None => {},
        }
    }
    assert forall|k: int| 0 <= k < errs_n.len() implies err_ok(
        tree,
        roots,
        #[trigger] errs_n[k],
    ) by {
        if k < errs0.len() {
            assert(err_ok(tree, roots, errs0[k]));
        }
    }
}

/// Process one reference within a worker: classify it, fold a file length
/// into the partial sum, enqueue a listing job for a new directory, or
/// report a metadata failure.
fn handle_ref(
    tree: &FsTree,
    p: usize,
    store: &mut IdentityStore,
    q: &mut JobQueue,
    total: &mut u128,
    errors: &mut Vec<TraversalError>,
    Ghost(roots): Ghost<Seq<usize>>,
)
    requires
        tree.wf(),
        (p as int) < tree.nodes@.len(),
        tree.absorbs(tree.reachable(roots), p as int),
        old(q).wf(),
        old(q).outstanding() >= old(q).pending().len() + 1,
        old(q).outstanding() < usize::MAX,
        v_sound(*tree, roots, tree.visited(old(store).seen())),
        *old(total) as int == tree.sum_files_in(tree.visited(old(store).seen()), tree.size()),
    ensures
        final(q).wf(),
        final(q).outstanding() >= final(q).pending().len() + 1,
        final(q).outstanding() == old(q).outstanding() + final(q).pending().len() - old(
            q,
        ).pending().len(),
        v_sound(*tree, roots, tree.visited(final(store).seen())),
        forall|m: int|
            tree.visited(old(store).seen()).contains(m) ==> #[trigger] tree.visited(
                final(store).seen(),
            ).contains(m),
        tree.absorbs(tree.visited(final(store).seen()), p as int),
        *final(total) as int == tree.sum_files_in(
            tree.visited(final(store).seen()),
            tree.size(),
        ),
        match tree.target_of(p as int) {
            Some(n) => (if tree.visited(old(store).seen()).contains(n) {
                tree.visited(final(store).seen()) == tree.visited(old(store).seen())
                    && final(q).pending() == old(q).pending() && final(errors)@ == old(errors)@
            } else {
                tree.visited(final(store).seen()) == tree.visited(old(store).seen()).insert(n)
                    && tree.reachable(roots).contains(n) && final(errors)@ == old(errors)@ && (if tree.is_dir(n) {
                    final(q).pending() == old(q).pending().push(Job::Dir(n as usize))
                } else {
                    final(q).pending() == old(q).pending()
                })
            }),
            None => tree.visited(final(store).seen()) == tree.visited(old(store).seen())
                && final(q).pending() == old(q).pending() && (if tree.is_denied(p as int) {
                final(errors)@ == old(errors)@.push(TraversalError::Stat(p))
            } else {
                final(errors)@ == old(errors)@
            }),
        },
{
    let ghost keys0 = store.seen();
    let ghost v0 = tree.visited(keys0);
    let out = process_ref(tree, p, store);
    proof {
        lemma_after_ref(*tree, roots, keys0, store.seen(), p as int);
        match tree.target_of(p as int) {
            Some(n) => {
                if !keys0.contains(tree.key(n)) {
                    lemma_sum_insert(*tree, v0, n, tree.size());
                }
            },
            None => {},
        }
    }
    match out {
        RefOutcome::Counted(b) => {
            let _table_len: usize = tree.nodes.len();
            proof {
                let v1 = tree.visited(store.seen());
                lemma_sum_bound(*tree, v1, tree.size());
                assert(tree.size() <= u64::MAX as int);
                assert(tree.size() * (u64::MAX as int) <= (u64::MAX as int) * (u64::MAX as int))
                    by (nonlinear_arith)
                    requires 0 <= tree.size() <= u64::MAX as int;
                assert((u64::MAX as int) * (u64::MAX as int) < u128::MAX as int)
                    by (nonlinear_arith);
            }
            *total = *total + (b as u128);
        },
        RefOutcome::Expand(t) => {
            q.submit(Job::Dir(t));
        },
        RefOutcome::Quiet => {},
        RefOutcome::Reported => {
            errors.push(TraversalError::Stat(p));
        },
    }
}

/// Ranks a loop's progress after the drain flag: work left while running.
spec fn drain_rank(done: bool) -> int {
    if done {
        0
    } else {
        1
    }
}

/// Sum the paths of a snapshot: the traversal driver.
///
/// The queue is seeded with one path job per caller reference; the worker
/// protocol then drains it, expanding directories into further jobs, in
/// whatever order `schedule` dictates.  The result does not depend on the
/// schedule: the total is the sum of the lengths of the reachable regular
/// files, each physical object counted exactly once, and exactly one
/// listing error is reported for each reachable unlistable directory.  This
/// schedule-independence is what makes a run deterministic no matter how
/// concurrent workers interleave.
///
/// The bound on the reference and node counts keeps the outstanding-job
/// counter within its machine word.
pub fn fsum(tree: &FsTree, roots: &Vec<usize>, schedule: &Vec<usize>) -> (out: (
    u128,
    Vec<TraversalError>,
))
    requires
        tree.wf(),
        tree.roots_ok(roots@),
        roots@.len() + tree.nodes@.len() < usize::MAX,
    ensures
        out.0 as int == tree.spec_total(roots@),
        forall|d: usize|
            #[trigger] out.1@.to_multiset().count(TraversalError::List(d)) == (if tree.reachable(
                roots@,
            ).contains(d as int) && tree.is_dir(d as int) && !tree.listable(d as int) {
                1nat
            } else {
                0nat
            }),
        forall|k: int| 0 <= k < out.1@.len() ==> err_ok(*tree, roots@, #[trigger] out.1@[k]),
{
    let mut store = IdentityStore::new();
    let mut q = JobQueue::new();
    let mut total: u128 = 0;
    let mut errors: Vec<TraversalError> = Vec::new();

    let mut j: usize = 0;
    while j < roots.len()
        invariant
            tree.roots_ok(roots@),
            roots@.len() + tree.nodes@.len() < usize::MAX,
            j <= roots.len(),
            q.wf(),
            !q.drained(),
            q.outstanding() == q.pending().len(),
            q.pending() == roots@.take(j as int).map_values(|p: usize| Job::Path(p)),
            store.seen() == Set::<(u64, u64)>::empty(),
        decreases roots@.len() - j,
    {
        q.submit(Job::Path(roots[j]));
        proof {
            assert(roots@.take(j + 1) =~= roots@.take(j as int).push(roots@[j as int]));
            assert(roots@.take(j + 1).map_values(|p: usize| Job::Path(p)) =~= roots@.take(
                j as int,
            ).map_values(|p: usize| Job::Path(p)).push(Job::Path(roots@[j as int])));
        }
        j = j + 1;
    }

    proof {
        assert(roots@.take(roots@.len() as int) =~= roots@);
        assert(tree.visited(store.seen()) =~= Set::<int>::empty());
        lemma_sum_none(*tree, tree.visited(store.seen()), tree.size());
        lemma_visited_card(*tree, store.seen());
        let pend = q.pending();
        assert forall|k: int| 0 <= k < pend.len() implies job_ok(
            *tree,
            roots@,
            tree.visited(store.seen()),
            #[trigger] pend[k],
        ) by {
            assert(pend[k] == Job::Path(roots@[k]));
        }
        assert forall|jj: int| #![trigger roots@[jj]] 0 <= jj < roots@.len() implies pend
            .to_multiset().count(Job::Path(roots@[jj])) >= 1 by {
            assert(pend[jj] == Job::Path(roots@[jj]));
            assert(pend.contains(Job::Path(roots@[jj])));
        }
        assert forall|d: usize|
            #![trigger errors@.to_multiset().count(TraversalError::List(d))] true implies errors@
            .to_multiset().count(TraversalError::List(d)) == 0 by {
            assert(!errors@.contains(TraversalError::List(d)));
        }
    }

    let mut done: bool = false;
    let mut si: usize = 0;
    while !done
        invariant
            tree.wf(),
            tree.roots_ok(roots@),
            roots@.len() + tree.nodes@.len() < usize::MAX,
            q.wf(),
            q.outstanding() == q.pending().len(),
            q.outstanding() <= roots@.len() + tree.visited(store.seen()).len(),
            tree.visited(store.seen()).finite(),
            tree.visited(store.seen()).len() <= tree.size(),
            pend_ok(*tree, roots@, tree.visited(store.seen()), q.pending()),
            roots_pending(*tree, roots@, tree.visited(store.seen()), q.pending()),
            dirs_pending(*tree, tree.visited(store.seen()), q.pending()),
            v_sound(*tree, roots@, tree.visited(store.seen())),
            total as int == tree.sum_files_in(tree.visited(store.seen()), tree.size()),
            list_errors_exact(*tree, tree.visited(store.seen()), q.pending(), errors@),
            forall|k: int|
                0 <= k < errors@.len() ==> err_ok(*tree, roots@, #[trigger] errors@[k]),
            done ==> q.pending().len() == 0,
        decreases
                tree.size() - tree.visited(store.seen()).len(),
                q.pending().len(),
                drain_rank(done),
    {
        let pick: usize = if schedule.len() == 0 {
            0
        } else {
            schedule[si % schedule.len()]
        };
        si = if si == usize::MAX {
            0
        } else {
            si + 1
        };
        let ghost pend0 = q.pending();
        let ghost v0 = tree.visited(store.seen());
        match q.take(pick) {
            None => {
                done = true;
            },
            Some(job) => {
                let ghost i = pick as int % pend0.len() as int;
                proof {
                    assert(pend0.remove(i).to_multiset() =~= pend0.to_multiset().remove(pend0[i]));
                    assert(job_ok(*tree, roots@, v0, pend0[i]));
                }
                match job {
                    Job::Path(p) => {
                        proof {
                            let jj = choose|jj: int|
                                0 <= jj < roots@.len() && roots@[jj] == p;
                            lemma_reachable_root(*tree, roots@, jj);
                        }
                        let ghost pend_a = q.pending();
                        let ghost errs0 = errors@;
                        handle_ref(
                            tree,
                            p,
                            &mut store,
                            &mut q,
                            &mut total,
                            &mut errors,
                            Ghost(roots@),
                        );
                        q.complete();
                        proof {
                            lemma_visited_card(*tree, store.seen());
                            assert forall|k: int| 0 <= k < pend_a.len() implies job_ok(
                                *tree,
                                roots@,
                                v0,
                                #[trigger] pend_a[k],
                            ) by {
                                if k < i {
                                    assert(pend_a[k] == pend0[k]);
                                } else {
                                    assert(pend_a[k] == pend0[k + 1]);
                                }
                            }
                            assert forall|jj: int| #![trigger roots@[jj]]
                                0 <= jj < roots@.len() implies tree.absorbs(
                                v0,
                                roots@[jj] as int,
                            ) || pend_a.to_multiset().count(Job::Path(roots@[jj])) >= 1
                                || roots@[jj] as int == p as int by {
                                if !tree.absorbs(v0, roots@[jj] as int) && roots@[jj] != p {
                                    assert(pend0.to_multiset().count(Job::Path(roots@[jj])) >= 1);
                                    assert(Job::Path(roots@[jj]) != pend0[i]);
                                }
                            }
                            assert forall|d2: int| #![trigger v0.contains(d2)]
                                v0.contains(d2) && 0 <= d2 < tree.size() && tree.is_dir(d2)
                                && tree.listable(d2) && d2 != -1 implies dir_done_or_queued(
                                *tree,
                                v0,
                                pend_a,
                                d2,
                            ) by {
                                assert(dir_done_or_queued(*tree, v0, pend0, d2));
                                if !dir_expanded(*tree, v0, d2) {
                                    assert(pend0.to_multiset().count(Job::Dir(d2 as usize)) >= 1);
                                    assert(Job::Dir(d2 as usize) != pend0[i]);
                                }
                            }
                            assert forall|d2: usize| true implies #[trigger] list_err_count_ok(
                                *tree,
                                v0,
                                pend_a,
                                errs0,
                                d2,
                            ) by {
                                assert(list_err_count_ok(*tree, v0, pend0, errs0, d2));
                                assert(Job::Dir(d2) != pend0[i]);
                            }
                            lemma_ref_restore(
                                *tree,
                                roots@,
                                v0,
                                tree.visited(store.seen()),
                                pend_a,
                                q.pending(),
                                errs0,
                                errors@,
                                p as int,
                                -1,
                            );
                        }
                    },
                    Job::Dir(d) => {
                        let ghost v_mid = tree.visited(store.seen());
                        let ghost pend_mid = q.pending();
                        let ghost errs_mid = errors@;
                        proof {
                            assert forall|k: int| 0 <= k < pend_mid.len() implies job_ok(
                                *tree,
                                roots@,
                                v0,
                                #[trigger] pend_mid[k],
                            ) by {
                                if k < i {
                                    assert(pend_mid[k] == pend0[k]);
                                } else {
                                    assert(pend_mid[k] == pend0[k + 1]);
                                }
                            }
                            assert forall|jj2: int| #![trigger roots@[jj2]]
                                0 <= jj2 < roots@.len() implies tree.absorbs(
                                v0,
                                roots@[jj2] as int,
                            ) || pend_mid.to_multiset().count(Job::Path(roots@[jj2])) >= 1 by {
                                if !tree.absorbs(v0, roots@[jj2] as int) {
                                    assert(pend0.to_multiset().count(Job::Path(roots@[jj2])) >= 1);
                                    assert(Job::Path(roots@[jj2]) != pend0[i]);
                                }
                            }
                            assert forall|d2: int| #![trigger v0.contains(d2)]
                                v0.contains(d2) && 0 <= d2 < tree.size() && tree.is_dir(d2)
                                && tree.listable(d2) && d2 != d as int implies dir_done_or_queued(
                                *tree,
                                v0,
                                pend_mid,
                                d2,
                            ) by {
                                assert(dir_done_or_queued(*tree, v0, pend0, d2));
                                if !dir_expanded(*tree, v0, d2) {
                                    assert(pend0.to_multiset().count(Job::Dir(d2 as usize)) >= 1);
                                    assert(Job::Dir(d2 as usize) != pend0[i]);
                                }
                            }
                        }
                        let node = &tree.nodes[d];
                        match &node.kind {
                            NodeKind::Dir { entries, listable } => {
                                if !*listable {
                                    errors.push(TraversalError::List(d));
                                    proof {
                                        assert(list_err_count_ok(*tree, v0, pend0, errs_mid, d));
                                        assert(pend0.contains(pend0[i]));
                                        assert(errs_mid.push(
                                            TraversalError::List(d),
                                        ).to_multiset() =~= errs_mid.to_multiset().insert(
                                            TraversalError::List(d),
                                        ));
                                        assert forall|d2: usize| true implies
                                            #[trigger] list_err_count_ok(
                                            *tree,
                                            v0,
                                            pend_mid,
                                            errors@,
                                            d2,
                                        ) by {
                                            assert(list_err_count_ok(
                                                *tree,
                                                v0,
                                                pend0,
                                                errs_mid,
                                                d2,
                                            ));
                                            if d2 != d {
                                                assert(TraversalError::List(d2)
                                                    != TraversalError::List(d));
                                                assert(Job::Dir(d2) != Job::Dir(d));
                                                assert(Job::Dir(d2) != pend0[i]);
                                            }
                                        }
                                        assert forall|k: int|
                                            0 <= k < errors@.len() implies err_ok(
                                            *tree,
                                            roots@,
                                            #[trigger] errors@[k],
                                        ) by {
                                            if k < errs_mid.len() {
                                                assert(err_ok(*tree, roots@, errs_mid[k]));
                                            }
                                        }
                                        assert(dirs_pending(*tree, v0, pend_mid));
                                    }
                                } else {
                                    proof {
                                        assert forall|d2: usize| true implies
                                            #[trigger] list_err_count_ok(
                                            *tree,
                                            v0,
                                            pend_mid,
                                            errs_mid,
                                            d2,
                                        ) by {
                                            assert(list_err_count_ok(
                                                *tree,
                                                v0,
                                                pend0,
                                                errs_mid,
                                                d2,
                                            ));
                                            if d2 != d {
                                                assert(Job::Dir(d2) != pend0[i]);
                                            }
                                        }
                                    }
                                    let mut jj: usize = 0;
                                    while jj < entries.len()
                                        invariant
                                            tree.wf(),
                                            tree.roots_ok(roots@),
                                            roots@.len() + tree.nodes@.len() < usize::MAX,
                                            q.wf(),
                                            q.outstanding() == q.pending().len() + 1,
                                            q.outstanding() <= roots@.len() + tree.visited(
                                                store.seen(),
                                            ).len(),
                                            tree.visited(store.seen()).finite(),
                                            tree.visited(store.seen()).len() <= tree.size(),
                                            (d as int) < tree.size(),
                                            tree.is_dir(d as int),
                                            tree.listable(d as int),
                                            tree.visited(store.seen()).contains(d as int),
                                            entries@ == tree.entries(d as int),
                                            jj <= entries@.len(),
                                            pend_ok(
                                                *tree,
                                                roots@,
                                                tree.visited(store.seen()),
                                                q.pending(),
                                            ),
                                            roots_pending(
                                                *tree,
                                                roots@,
                                                tree.visited(store.seen()),
                                                q.pending(),
                                            ),
                                            dirs_pending_except(
                                                *tree,
                                                tree.visited(store.seen()),
                                                q.pending(),
                                                d as int,
                                            ),
                                            v_sound(*tree, roots@, tree.visited(store.seen())),
                                            total as int == tree.sum_files_in(
                                                tree.visited(store.seen()),
                                                tree.size(),
                                            ),
                                            list_errors_exact(
                                                *tree,
                                                tree.visited(store.seen()),
                                                q.pending(),
                                                errors@,
                                            ),
                                            forall|k: int|
                                                0 <= k < errors@.len() ==> err_ok(
                                                    *tree,
                                                    roots@,
                                                    #[trigger] errors@[k],
                                                ),
                                            forall|k: int| #![trigger entries@[k]]
                                                0 <= k < jj ==> tree.absorbs(
                                                    tree.visited(store.seen()),
                                                    entries@[k] as int,
                                                ),
                                            forall|m: int|
                                                v_mid.contains(m) ==> #[trigger] tree.visited(
                                                    store.seen(),
                                                ).contains(m),
                                            v_mid.finite(),
                                            q.pending().len() as int <= pend_mid.len() as int
                                                + tree.visited(store.seen()).len() as int
                                                - v_mid.len() as int,
                                        decreases entries@.len() - jj,
                                    {
                                        let ghost v_in = tree.visited(store.seen());
                                        let ghost pend_in = q.pending();
                                        let ghost errs_in = errors@;
                                        let e = entries[jj];
                                        proof {
                                            assert(tree.entries(d as int)[jj as int] == e);
                                            assert((e as int) < tree.size());
                                            lemma_reachable_entry(
                                                *tree,
                                                roots@,
                                                d as int,
                                                jj as int,
                                            );
                                        }
                                        handle_ref(
                                            tree,
                                            e,
                                            &mut store,
                                            &mut q,
                                            &mut total,
                                            &mut errors,
                                            Ghost(roots@),
                                        );
                                        proof {
                                            lemma_visited_card(*tree, store.seen());
                                            lemma_ref_restore(
                                                *tree,
                                                roots@,
                                                v_in,
                                                tree.visited(store.seen()),
                                                pend_in,
                                                q.pending(),
                                                errs_in,
                                                errors@,
                                                e as int,
                                                d as int,
                                            );
                                            assert forall|k: int| #![trigger entries@[k]]
                                                0 <= k < jj + 1 implies tree.absorbs(
                                                tree.visited(store.seen()),
                                                entries@[k] as int,
                                            ) by {
                                                if k < jj {
                                                    assert(tree.absorbs(v_in, entries@[k] as int));
                                                    match tree.target_of(entries@[k] as int) {
                                                        Some(t) => {
                                                            assert(v_in.contains(t));
                                                            assert(tree.visited(
                                                                store.seen(),
                                                            ).contains(t));
                                                        },
                                                        None => {},
                                                    }
                                                }
                                            }
                                            assert forall|m: int|
                                                v_mid.contains(m) implies #[trigger] tree.visited(
                                                store.seen(),
                                            ).contains(m) by {
                                                assert(v_in.contains(m));
                                            }
                                            assert(v_mid.subset_of(tree.visited(store.seen())));
                                            lemma_len_subset(
                                                v_mid,
                                                tree.visited(store.seen()),
                                            );
                                        }
                                        jj = jj + 1;
                                    }
                                    proof {
                                        assert forall|j2: int|
                                            #![trigger tree.entries(d as int)[j2]]
                                            0 <= j2 < tree.entries(d as int).len() implies tree
                                            .absorbs(
                                            tree.visited(store.seen()),
                                            tree.entries(d as int)[j2] as int,
                                        ) by {
                                            assert(entries@[j2] == tree.entries(d as int)[j2]);
                                            assert(tree.absorbs(
                                                tree.visited(store.seen()),
                                                entries@[j2] as int,
                                            ));
                                        }
                                        assert(dir_expanded(
                                            *tree,
                                            tree.visited(store.seen()),
                                            d as int,
                                        ));
                                        assert(dirs_pending(
                                            *tree,
                                            tree.visited(store.seen()),
                                            q.pending(),
                                        ));
                                    }
                                }
                            },
                            _ => {
                                proof {
                                    assert(false);
                                }
                            },
                        }
                        q.complete();
                        proof {
                            lemma_visited_card(*tree, store.seen());
                            assert(v_mid.subset_of(tree.visited(store.seen())));
                            lemma_len_subset(v_mid, tree.visited(store.seen()));
                        }
                    },
                }
            },
        }
    }

    proof {
        let v = tree.visited(store.seen());
        let r = tree.reachable(roots@);
        assert(tree.closed_set(roots@, v)) by {
            assert forall|jj: int| #![trigger roots@[jj]] 0 <= jj < roots@.len() implies tree
                .absorbs(v, roots@[jj] as int) by {
                assert(q.pending().to_multiset().count(Job::Path(roots@[jj]))
                    <= q.pending().to_multiset().len());
            }
            assert forall|d: int, j2: int|
                v.contains(d) && 0 <= d < tree.size() && tree.is_dir(d) && tree.listable(d) && 0
                    <= j2 < tree.entries(d).len() implies tree.absorbs(
                v,
                #[trigger] tree.entries(d)[j2] as int,
            ) by {
                assert(q.pending().to_multiset().count(Job::Dir(d as usize))
                    <= q.pending().to_multiset().len());
                assert(dir_expanded(*tree, v, d));
            }
        }
        assert forall|n: int| r.contains(n) implies v.contains(n) by {
            assert(tree.closed_set(roots@, v));
        }
        assert(v =~= r);
        assert forall|d: usize|
            #![trigger errors@.to_multiset().count(TraversalError::List(d))] true implies errors@
            .to_multiset().count(TraversalError::List(d)) == (if r.contains(d as int)
                && tree.is_dir(d as int) && !tree.listable(d as int) {
                1nat
            } else {
                0nat
            }) by {
            assert(list_err_count_ok(*tree, v, q.pending(), errors@, d));
            assert(q.pending().to_multiset().count(Job::Dir(d)) <= q.pending().to_multiset().len());
        }
    }
    (total, errors)
}

} // verus!
