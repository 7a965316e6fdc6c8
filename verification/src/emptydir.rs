//! The pruning algorithm: removes every deletable directory from a tree,
//! children before parents, and climbs the ancestor chain afterwards.
//!
//! The filesystem work — walking directories, removing them — is the
//! caller's; this module holds the decisions and the bookkeeping.  A
//! directory tree is modelled by [`FsEntry`] and [`FsNode`]; the pruning
//! of such a tree is [`prune_entries`], whose contract is the spec-level
//! [`prune`].  The upward walk over the ancestor chain is
//! [`climb_ancestors`].  A caller that works against the real filesystem
//! evaluates each directory with [`crate::can_be_deleted::can_be_deleted`]
//! in the same order and feeds each removal's outcome to
//! [`EmptydirResult::record`].

use vstd::prelude::*;
use crate::lower;
use crate::can_be_deleted::allowlisted;
use crate::can_be_deleted::all_allowlisted;
use crate::can_be_deleted::is_allowlisted;
use crate::can_be_deleted::string_is;
use crate::can_be_deleted::to_lowercase;

verus! {

/// Aggregate outcome of a pruning run: how many directories were deleted,
/// and how many deletions failed despite being approved.
#[derive(Debug, PartialEq, Eq, Structural, Clone, Copy)]
pub struct EmptydirResult {
    pub count_deleted: u32,
    pub count_errors: u32,
}

impl EmptydirResult {
    /// A fresh pair of counters.
    pub fn new() -> (r: EmptydirResult)
        ensures
            r.count_deleted == 0,
            r.count_errors == 0,
    {
        EmptydirResult { count_deleted: 0, count_errors: 0 }
    }

    /// Records one deletion attempt of an approved directory: a success
    /// raises the deletion count, a failure the error count.
    pub fn record(&mut self, deleted: bool)
        requires
            old(self).count_deleted < u32::MAX,
            old(self).count_errors < u32::MAX,
        ensures
            final(self).count_deleted == old(self).count_deleted + (if deleted {
                1int
            } else {
                0int
            }),
            final(self).count_errors == old(self).count_errors + (if deleted {
                0int
            } else {
                1int
            }),
    {
        if deleted {
            self.count_deleted = self.count_deleted + 1;
        } else {
            self.count_errors = self.count_errors + 1;
        }
    }
}

/// One entry of a modelled directory: its name and what it is.
#[derive(Debug, PartialEq, Eq)]
pub struct FsEntry {
    pub name: String,
    pub node: FsNode,
}

/// What an entry is: a file, or a directory with its own entries.
#[derive(Debug, PartialEq, Eq)]
pub enum FsNode {
    File,
    Dir(Vec<FsEntry>),
}

/// The mathematical form of an entry: plain sequences throughout.
pub struct TreeEntry {
    pub name: Seq<char>,
    pub node: TreeNode,
}

/// The mathematical form of a node.
pub enum TreeNode {
    File,
    Dir(Seq<TreeEntry>),
}

impl FsEntry {
    /// The mathematical form of this entry.
    pub open spec fn to_tree(&self) -> TreeEntry
        decreases self,
    {
        TreeEntry { name: self.name@, node: self.node.to_tree() }
    }
}

impl FsNode {
    /// The mathematical form of this node.
    pub open spec fn to_tree(&self) -> TreeNode
        decreases self,
    {
        match self {
            FsNode::File => TreeNode::File,
            FsNode::Dir(entries) => TreeNode::Dir(tree_of_entries(entries@)),
        }
    }
}

/// The mathematical form of a run of entries.
pub open spec fn tree_of_entries(s: Seq<FsEntry>) -> Seq<TreeEntry>
    decreases s,
{
    if s.len() == 0 {
        Seq::empty()
    } else {
        tree_of_entries(s.drop_last()).push(s.last().to_tree())
    }
}

/// The mathematical form of a run of entries is index for index.
pub proof fn lemma_tree_of_entries(s: Seq<FsEntry>)
    ensures
        tree_of_entries(s).len() == s.len(),
        forall|i: int| 0 <= i < s.len() ==> tree_of_entries(s)[i] == s[i].to_tree(),
    decreases s.len(),
{
    if s.len() > 0 {
        lemma_tree_of_entries(s.drop_last());
    }
}

/// Appending an entry appends its mathematical form.
pub proof fn lemma_tree_push(s: Seq<FsEntry>, e: FsEntry)
    ensures
        tree_of_entries(s.push(e)) == tree_of_entries(s).push(e.to_tree()),
{
    assert(s.push(e).drop_last() =~= s);
    assert(s.push(e).last() == e);
}

/// Whether every entry of a directory, judged by its case-folded name, is
/// junk: such a directory is deletable (when its path is not protected).
pub open spec fn all_junk(s: Seq<TreeEntry>) -> bool {
    forall|i: int| 0 <= i < s.len() ==> allowlisted(lower(s[i].name))
}

/// The bottom-up pruning of a run of sibling entries.  Every directory's
/// own entries are pruned first; a directory whose remaining entries are
/// all junk is then dropped, unless its path is protected (it is, or lies
/// inside, a `.git` folder, or an ancestor was protected).  Returns the
/// entries that remain and the number of directories deleted.
pub open spec fn prune(s: Seq<TreeEntry>, protected: bool) -> (Seq<TreeEntry>, nat)
    decreases s,
{
    if s.len() == 0 {
        (Seq::empty(), 0nat)
    } else {
        let rest = prune(s.drop_last(), protected);
        let e = s.last();
        match e.node {
            TreeNode::File => (rest.0.push(e), rest.1),
            TreeNode::Dir(children) => {
                let child_protected = protected || e.name == ".git"@;
                let inner = prune(children, child_protected);
                if !child_protected && all_junk(inner.0) {
                    (rest.0, (rest.1 + inner.1 + 1) as nat)
                } else {
                    (
                        rest.0.push(TreeEntry { name: e.name, node: TreeNode::Dir(inner.0) }),
                        (rest.1 + inner.1) as nat,
                    )
                }
            },
        }
    }
}

/// Pruning a pruned run of entries deletes nothing further and leaves the
/// entries as they are.
pub proof fn lemma_prune_idempotent(s: Seq<TreeEntry>, protected: bool)
    ensures
        prune(prune(s, protected).0, protected).0 == prune(s, protected).0,
        prune(prune(s, protected).0, protected).1 == 0,
    decreases s,
{
    if s.len() == 0 {
    } else {
        let rest = prune(s.drop_last(), protected);
        lemma_prune_idempotent(s.drop_last(), protected);
        let e = s.last();
        match e.node {
            TreeNode::File => {
                let out = rest.0.push(e);
                assert(out.drop_last() =~= rest.0);
                assert(out.last() == e);
            },
            TreeNode::Dir(children) => {
                let child_protected = protected || e.name == ".git"@;
                let inner = prune(children, child_protected);
                lemma_prune_idempotent(children, child_protected);
                if !child_protected && all_junk(inner.0) {
                } else {
                    let e2 = TreeEntry { name: e.name, node: TreeNode::Dir(inner.0) };
                    let out = rest.0.push(e2);
                    assert(out.drop_last() =~= rest.0);
                    assert(out.last() == e2);
                }
            },
        }
    }
}

/// Decides whether every entry of a (modelled) directory is junk.
pub fn entries_all_junk(entries: &Vec<FsEntry>) -> (r: bool)
    ensures
        r == all_junk(tree_of_entries(entries@)),
{
    proof {
        lemma_tree_of_entries(entries@);
    }
    let mut i: usize = 0;
    while i < entries.len()
        invariant
            i <= entries@.len(),
            tree_of_entries(entries@).len() == entries@.len(),
            forall|k: int| 0 <= k < entries@.len() ==> tree_of_entries(entries@)[k]
                == entries@[k].to_tree(),
            forall|k: int| 0 <= k < i ==> allowlisted(lower(entries@[k].name@)),
        decreases entries@.len() - i,
    {
        let low = to_lowercase(&entries[i].name);
        if !is_allowlisted(&low) {
            proof {
                assert(tree_of_entries(entries@)[i as int].name == entries@[i as int].name@);
            }
            return false;
        }
        i = i + 1;
    }
    true
}

/// Prunes a run of sibling entries, children before parents, dropping
/// every directory that the deletability rules approve.  Returns what
/// remains and the number of directories deleted, exactly as [`prune`]
/// says.
pub fn prune_entries(entries: Vec<FsEntry>, protected: bool) -> (r: (Vec<FsEntry>, u32))
    requires
        prune(tree_of_entries(entries@), protected).1 <= u32::MAX,
    ensures
        tree_of_entries(r.0@) == prune(tree_of_entries(entries@), protected).0,
        r.1 as nat == prune(tree_of_entries(entries@), protected).1,
    decreases entries@,
{
    let ghost s0 = entries@;
    let mut entries = entries;
    if entries.len() == 0 {
        return (entries, 0);
    }
    let e = entries.pop().unwrap();
    proof {
        assert(tree_of_entries(s0).drop_last() =~= tree_of_entries(s0.drop_last()));
        assert(tree_of_entries(s0).last() == s0.last().to_tree());
    }
    let (mut rest, n1) = prune_entries(entries, protected);
    let FsEntry { name, node } = e;
    match node {
        FsNode::File => {
            proof {
                lemma_tree_push(rest@, FsEntry { name: name, node: FsNode::File });
            }
            let mut kept = rest;
            kept.push(FsEntry { name, node: FsNode::File });
            (kept, n1)
        },
        FsNode::Dir(children) => {
            let child_protected = protected || string_is(&name, ".git");
            proof {
                assert(decreases_to!(s0 => children@));
            }
            let (kids, n2) = prune_entries(children, child_protected);
            if !child_protected && entries_all_junk(&kids) {
                (rest, n1 + n2 + 1)
            } else {
                proof {
                    lemma_tree_push(
                        rest@,
                        FsEntry { name: name, node: FsNode::Dir(kids) },
                    );
                }
                let mut kept = rest;
                kept.push(FsEntry { name, node: FsNode::Dir(kids) });
                (kept, n1 + n2)
            }
        },
    }
}

/// Decides whether every name of a listing, folded to lower case, is on
/// the allow-list.
pub fn names_all_allowlisted(names: &Vec<String>) -> (r: bool)
    ensures
        r == all_allowlisted(names@),
{
    let mut i: usize = 0;
    while i < names.len()
        invariant
            i <= names@.len(),
            forall|k: int| 0 <= k < i ==> allowlisted(lower(names@[k]@)),
        decreases names@.len() - i,
    {
        let low = to_lowercase(&names[i]);
        if !is_allowlisted(&low) {
            return false;
        }
        i = i + 1;
    }
    true
}

/// What was observed about one ancestor on the chain above the pruned
/// root, innermost first: its own name, the names of its entries other
/// than the chain member just below it, whether its path is protected,
/// whether it could be listed, and whether removing it would succeed.
pub struct AncestorLevel {
    /// The last component of this ancestor's path.
    pub name: String,
    /// The names of its entries, leaving out the chain member below it.
    pub other_names: Vec<String>,
    /// Whether the path is protected: the designated never-delete path,
    /// or one with a `.git` component.
    pub protected: bool,
    /// Whether the contents could be listed.
    pub readable: bool,
    /// Whether removing this directory would succeed, were it attempted.
    pub removal_succeeds: bool,
}

/// Whether the deletability rules approve an ancestor: its path is not
/// protected, it could be listed, every entry beside the chain member
/// below it is junk, and the chain member below it is gone or junk-named.
pub open spec fn level_approved(
    level: AncestorLevel,
    child_name: Seq<char>,
    child_present: bool,
) -> bool {
    &&& !level.protected
    &&& level.readable
    &&& all_allowlisted(level.other_names@)
    &&& (child_present ==> allowlisted(lower(child_name)))
}

/// The upward walk over the ancestor chain: as long as the rules approve
/// the current ancestor, its removal is attempted and the walk moves one
/// level up; the first ancestor that is not approved stops the walk at
/// once.  Returns how many removals succeeded and how many failed.
pub open spec fn climb(
    levels: Seq<AncestorLevel>,
    child_name: Seq<char>,
    child_present: bool,
) -> (nat, nat)
    decreases levels.len(),
{
    if levels.len() == 0 {
        (0nat, 0nat)
    } else {
        let l = levels[0];
        if !level_approved(l, child_name, child_present) {
            (0nat, 0nat)
        } else {
            let rest = climb(levels.drop_first(), l.name@, !l.removal_succeeds);
            if l.removal_succeeds {
                ((rest.0 + 1) as nat, rest.1)
            } else {
                (rest.0, (rest.1 + 1) as nat)
            }
        }
    }
}

/// Walks up the ancestor chain, exactly as [`climb`] says: deletes while
/// the rules approve, stops at the first ancestor they refuse.
/// `child_name` names the directory the walk starts above, and
/// `child_present` says whether it still exists (its own removal failed).
pub fn climb_ancestors(
    levels: &Vec<AncestorLevel>,
    child_name: &String,
    child_present: bool,
) -> (r: EmptydirResult)
    requires
        climb(levels@, child_name@, child_present).0 <= u32::MAX,
        climb(levels@, child_name@, child_present).1 <= u32::MAX,
    ensures
        r.count_deleted as nat == climb(levels@, child_name@, child_present).0,
        r.count_errors as nat == climb(levels@, child_name@, child_present).1,
{
    let ghost total = climb(levels@, child_name@, child_present);
    let mut r = EmptydirResult::new();
    let mut child: &String = child_name;
    let mut present: bool = child_present;
    let mut i: usize = 0;
    proof {
        assert(levels@.skip(0) =~= levels@);
    }
    while i < levels.len()
        invariant
            i <= levels@.len(),
            total == climb(levels@, child_name@, child_present),
            total.0 == r.count_deleted + climb(levels@.skip(i as int), child@, present).0,
            total.1 == r.count_errors + climb(levels@.skip(i as int), child@, present).1,
            total.0 <= u32::MAX,
            total.1 <= u32::MAX,
        decreases levels@.len() - i,
    {
        let level = &levels[i];
        let approved = !level.protected && level.readable
            && names_all_allowlisted(&level.other_names) && {
            if present {
                let low = to_lowercase(child);
                is_allowlisted(&low)
            } else {
                true
            }
        };
        proof {
            assert(levels@.skip(i as int)[0] == levels@[i as int]);
            assert(levels@.skip(i as int).drop_first() =~= levels@.skip(i + 1));
        }
        if !approved {
            return r;
        }
        if level.removal_succeeds {
            r.count_deleted = r.count_deleted + 1;
        } else {
            r.count_errors = r.count_errors + 1;
        }
        child = &level.name;
        present = !level.removal_succeeds;
        i = i + 1;
    }
    r
}

/// The counts of a whole pruning run over a modelled tree: what pruning
/// inside the root deletes, then the root itself if what remains of it is
/// junk and its path is not protected, then whatever the upward walk over
/// the ancestors deletes.  A removal that fails despite approval counts as
/// an error and leaves the directory standing.
pub open spec fn emptydir_counts(
    root_name: Seq<char>,
    entries: Seq<TreeEntry>,
    root_protected: bool,
    root_removal_succeeds: bool,
    levels: Seq<AncestorLevel>,
) -> (nat, nat) {
    let after = prune(entries, root_protected);
    let root_deletable = !root_protected && all_junk(after.0);
    let root_deleted = root_deletable && root_removal_succeeds;
    let up = climb(levels, root_name, !root_deleted);
    (
        (after.1 + (if root_deleted {
            1nat
        } else {
            0nat
        }) + up.0) as nat,
        ((if root_deletable && !root_removal_succeeds {
            1nat
        } else {
            0nat
        }) + up.1) as nat,
    )
}

/// One whole pruning run over a modelled tree, exactly as
/// [`emptydir_counts`] says: the subtree is pruned children before
/// parents, the root is removed if what remains of it is junk, and the
/// walk then climbs the ancestor chain.  Returns the counters of the run.
pub fn emptydir_tree(
    root_name: &String,
    root_entries: Vec<FsEntry>,
    root_protected: bool,
    root_removal_succeeds: bool,
    ancestors: &Vec<AncestorLevel>,
) -> (r: EmptydirResult)
    requires
        emptydir_counts(
            root_name@,
            tree_of_entries(root_entries@),
            root_protected,
            root_removal_succeeds,
            ancestors@,
        ).0 <= u32::MAX,
        emptydir_counts(
            root_name@,
            tree_of_entries(root_entries@),
            root_protected,
            root_removal_succeeds,
            ancestors@,
        ).1 <= u32::MAX,
    ensures
        r.count_deleted as nat == emptydir_counts(
            root_name@,
            tree_of_entries(root_entries@),
            root_protected,
            root_removal_succeeds,
            ancestors@,
        ).0,
        r.count_errors as nat == emptydir_counts(
            root_name@,
            tree_of_entries(root_entries@),
            root_protected,
            root_removal_succeeds,
            ancestors@,
        ).1,
{
    let (remaining, inner_deleted) = prune_entries(root_entries, root_protected);
    let root_deletable = !root_protected && entries_all_junk(&remaining);
    let root_deleted = root_deletable && root_removal_succeeds;
    let up = climb_ancestors(ancestors, root_name, !root_deleted);
    let extra_deleted: u32 = if root_deleted {
        1
    } else {
        0
    };
    let extra_errors: u32 = if root_deletable && !root_removal_succeeds {
        1
    } else {
        0
    };
    EmptydirResult {
        count_deleted: inner_deleted + extra_deleted + up.count_deleted,
        count_errors: extra_errors + up.count_errors,
    }
}

/// A climb that reaches an ancestor whose contents cannot be listed stops
/// at once and deletes nothing.  In particular, once a run has deleted
/// the directory a later climb would start from, that climb finds it
/// unlistable and ends immediately.
pub proof fn lemma_climb_stops_when_unreadable(
    levels: Seq<AncestorLevel>,
    child_name: Seq<char>,
    child_present: bool,
)
    requires
        levels.len() > 0,
        !levels[0].readable,
    ensures
        climb(levels, child_name, child_present) == (0nat, 0nat),
{
}

/// Idempotence of a whole run that leaves the root standing: when the
/// first run could not delete the root (so a second run sees the same
/// directory again) and its climb deleted nothing above, the second run
/// over what the first left behind deletes nothing and meets no error.
pub proof fn lemma_emptydir_idempotent(
    root_name: Seq<char>,
    entries: Seq<TreeEntry>,
    root_protected: bool,
    levels: Seq<AncestorLevel>,
)
    requires
        !(!root_protected && all_junk(prune(entries, root_protected).0)),
        climb(levels, root_name, true) == (0nat, 0nat),
    ensures
        emptydir_counts(
            root_name,
            prune(entries, root_protected).0,
            root_protected,
            true,
            levels,
        ) == (0nat, 0nat),
{
    lemma_prune_idempotent(entries, root_protected);
}

/// The ancestor cascade: once the directory below it is gone, an ancestor
/// holding nothing but junk is deleted as well, and the walk stops at the
/// first ancestor that holds anything else — whatever chain stands above
/// that one.
pub proof fn lemma_ancestor_cascade(
    parent: AncestorLevel,
    blocker: AncestorLevel,
    above: Seq<AncestorLevel>,
    child_name: Seq<char>,
)
    requires
        !parent.protected,
        parent.readable,
        all_allowlisted(parent.other_names@),
        parent.removal_succeeds,
        !level_approved(blocker, parent.name@, false),
    ensures
        climb(seq![parent, blocker] + above, child_name, false) == (1nat, 0nat),
{
    let levels = seq![parent, blocker] + above;
    assert(levels[0] == parent);
    assert(level_approved(parent, child_name, false));
    assert(levels.drop_first()[0] == blocker);
    assert(climb(levels.drop_first(), parent.name@, false) == (0nat, 0nat));
}

} // verus!
