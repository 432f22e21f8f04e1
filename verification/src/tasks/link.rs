//! Reconciling a source directory tree into a target tree of symbolic links.
//!
//! The filesystem trees involved are modelled as maps from relative paths
//! (sequences of components) to leaf objects: regular files (with a content
//! identifier), empty directories, and symbolic links.  A directory with
//! content is implicit in the paths of the leaves below it, the way
//! recursive directory creation tolerates it.  Paths are canonical component
//! lists, so a well-formed tree is prefix-free: no leaf lies under another.
//!
//! The synchronizer walks the source tree and, for every leaf that is not a
//! directory, ensures `to/relative-path` is a symlink to the absolute source
//! path, displacing whatever blocks it into the backup tree instead of
//! deleting it.  It returns the filesystem actions that realize the change,
//! for the caller to replay onto the real filesystem in order.

use vstd::prelude::*;
use vstd::string::*;
use crate::env::views_of;
use crate::env::EnvEntry;
use crate::env::EnvError;
use crate::env::SpecExpansion;
use crate::env::env_map;
use crate::env::env_distinct;
use crate::env::expand_first;
use crate::env::home_view;

verus! {

/// Errors from the synchronizer.  Paths are component lists relative to the
/// tree they concern.
#[derive(Debug, PartialEq)]
pub enum LinkError {
    /// A required directory is absent or is not a directory.
    MissingDir { name: String, path: Vec<String> },
    /// A directory's canonical path cannot be determined.
    CanonicalizeError { path: Vec<String> },
    /// A directory cannot be created because a leaf blocks the path.
    CreateDirError { path: Vec<String> },
    /// A leaf cannot be deleted.
    DeleteError { path: Vec<String> },
    /// A leaf cannot be read.
    IOError { path: Vec<String> },
    /// A leaf cannot be moved into the backup tree.
    RenameError { from_path: Vec<String>, to_path: Vec<String> },
    /// A symlink cannot be created.
    SymlinkError { from_path: Vec<String>, to_path: Vec<String> },
}

/// One leaf of a filesystem tree.
#[derive(Debug, PartialEq, Clone)]
pub enum FsNode {
    /// A regular file; the identifier stands for its exact content.
    File(u64),
    /// A directory with nothing under it.
    EmptyDir,
    /// A symbolic link and its target, an absolute path.
    Symlink(Vec<String>),
}

/// The mathematical value of one leaf.
pub enum NodeV {
    File(u64),
    EmptyDir,
    Link(Seq<Seq<char>>),
}

pub open spec fn node_view(n: FsNode) -> NodeV {
    match n {
        FsNode::File(c) => NodeV::File(c),
        FsNode::EmptyDir => NodeV::EmptyDir,
        FsNode::Symlink(t) => NodeV::Link(views_of(t@)),
    }
}

/// One leaf with its relative path.
#[derive(Debug, PartialEq, Clone)]
pub struct TreeEntry {
    pub path: Vec<String>,
    pub node: FsNode,
}

/// A filesystem tree: a list of leaves.
#[derive(Debug, PartialEq, Clone)]
pub struct Tree {
    pub entries: Vec<TreeEntry>,
}

/// `a` is a prefix of `b` (possibly all of it).
pub open spec fn path_prefix(a: Seq<Seq<char>>, b: Seq<Seq<char>>) -> bool {
    a.len() <= b.len() && a == b.subrange(0, a.len() as int)
}

/// `a` is a proper prefix of `b`.
pub open spec fn strict_prefix(a: Seq<Seq<char>>, b: Seq<Seq<char>>) -> bool {
    path_prefix(a, b) && a.len() < b.len()
}

pub proof fn lemma_prefix_refl(a: Seq<Seq<char>>)
    ensures
        path_prefix(a, a),
{
    assert(a.subrange(0, a.len() as int) =~= a);
}

/// The map a list of leaves denotes (later entries win).
pub open spec fn tree_map(s: Seq<TreeEntry>) -> Map<Seq<Seq<char>>, NodeV>
    decreases s.len(),
{
    if s.len() == 0 {
        Map::empty()
    } else {
        tree_map(s.drop_last()).insert(views_of(s.last().path@), node_view(s.last().node))
    }
}

/// No leaf path is empty and no leaf lies on or under another.
pub open spec fn paths_ok(s: Seq<TreeEntry>) -> bool {
    &&& forall|i: int| 0 <= i < s.len() ==> s[i].path@.len() >= 1
    &&& forall|i: int, j: int| 0 <= i < s.len() && 0 <= j < s.len() && i != j
        ==> !path_prefix(views_of(s[i].path@), views_of(s[j].path@))
}

impl Tree {
    /// The tree as a map from relative paths to leaves.
    pub open spec fn m(self) -> Map<Seq<Seq<char>>, NodeV> {
        tree_map(self.entries@)
    }

    /// Well-formed: non-empty, mutually prefix-free leaf paths.
    pub open spec fn wf(self) -> bool {
        paths_ok(self.entries@)
    }
}

/// Prefix-freedom, stated of the map itself.
pub open spec fn map_prefix_free(m: Map<Seq<Seq<char>>, NodeV>) -> bool {
    forall|k1: Seq<Seq<char>>, k2: Seq<Seq<char>>|
        m.contains_key(k1) && m.contains_key(k2) && k1 != k2
            ==> !path_prefix(k1, k2)
}

pub proof fn lemma_tree_map_contains(s: Seq<TreeEntry>)
    ensures
        forall|k: Seq<Seq<char>>|
            tree_map(s).contains_key(k)
                <==> exists|i: int| 0 <= i < s.len() && views_of(s[i].path@) == k,
    decreases s.len(),
{
    if s.len() > 0 {
        lemma_tree_map_contains(s.drop_last());
        assert forall|k: Seq<Seq<char>>|
            tree_map(s).contains_key(k)
                <==> exists|i: int| 0 <= i < s.len() && views_of(s[i].path@) == k by {
            assert(tree_map(s) == tree_map(s.drop_last()).insert(
                views_of(s.last().path@),
                node_view(s.last().node),
            ));
            if tree_map(s).contains_key(k) {
                if k == views_of(s.last().path@) {
                    assert(views_of(s[s.len() - 1].path@) == k);
                } else {
                    let i = choose|i: int|
                        0 <= i < s.drop_last().len() && views_of(s.drop_last()[i].path@) == k;
                    assert(s.drop_last()[i] == s[i]);
                }
            }
            if exists|i: int| 0 <= i < s.len() && views_of(s[i].path@) == k {
                let i = choose|i: int| 0 <= i < s.len() && views_of(s[i].path@) == k;
                if i < s.len() - 1 {
                    assert(views_of(s.drop_last()[i].path@) == k);
                    assert(tree_map(s.drop_last()).contains_key(k));
                } else {
                    assert(k == views_of(s.last().path@));
                }
            }
        }
    }
}

pub proof fn lemma_tree_map_index(s: Seq<TreeEntry>, i: int)
    requires
        paths_ok(s),
        0 <= i < s.len(),
    ensures
        tree_map(s).contains_key(views_of(s[i].path@)),
        tree_map(s)[views_of(s[i].path@)] == node_view(s[i].node),
    decreases s.len(),
{
    lemma_tree_map_contains(s);
    if i < s.len() - 1 {
        assert(!path_prefix(views_of(s[i].path@), views_of(s[s.len() - 1].path@)));
        lemma_prefix_refl(views_of(s[i].path@));
        assert(views_of(s.last().path@) != views_of(s[i].path@));
        assert(forall|a: int| 0 <= a < s.drop_last().len() ==> s.drop_last()[a] == s[a]);
        assert(paths_ok(s.drop_last()));
        lemma_tree_map_index(s.drop_last(), i);
    }
}

proof fn lemma_tree_map_remove(s: Seq<TreeEntry>, i: int)
    requires
        paths_ok(s),
        0 <= i < s.len(),
    ensures
        tree_map(s.remove(i)) == tree_map(s).remove(views_of(s[i].path@)),
        paths_ok(s.remove(i)),
    decreases s.len(),
{
    let k = views_of(s[i].path@);
    let s2 = s.remove(i);
    assert(forall|a: int| 0 <= a < i ==> s2[a] == s[a]);
    assert(forall|a: int| i <= a < s2.len() ==> s2[a] == s[a + 1]);
    assert(paths_ok(s2));
    if i == s.len() - 1 {
        assert(s2 =~= s.drop_last());
        lemma_tree_map_contains(s.drop_last());
        assert(!tree_map(s.drop_last()).contains_key(k)) by {
            if exists|a: int|
                0 <= a < s.drop_last().len() && views_of(s.drop_last()[a].path@) == k {
                let a = choose|a: int|
                    0 <= a < s.drop_last().len() && views_of(s.drop_last()[a].path@) == k;
                lemma_prefix_refl(views_of(s[a].path@));
                assert(path_prefix(views_of(s[a].path@), views_of(s[i].path@)));
            }
        }
        assert(tree_map(s.drop_last()) =~= tree_map(s).remove(k));
    } else {
        assert(s2.drop_last() =~= s.drop_last().remove(i));
        assert(s2.last() == s.last());
        assert(forall|a: int| 0 <= a < s.drop_last().len() ==> s.drop_last()[a] == s[a]);
        assert(paths_ok(s.drop_last()));
        lemma_tree_map_remove(s.drop_last(), i);
        assert(tree_map(s2) == tree_map(s.drop_last()).remove(k).insert(
            views_of(s.last().path@),
            node_view(s.last().node),
        ));
        lemma_prefix_refl(k);
        assert(views_of(s.last().path@) != k);
        assert(tree_map(s.drop_last()).remove(k).insert(
            views_of(s.last().path@),
            node_view(s.last().node),
        ) =~= tree_map(s).remove(k));
    }
}

/// Whether two paths are equal.
fn path_eq(a: &Vec<String>, b: &Vec<String>) -> (r: bool)
    ensures
        r == (views_of(a@) == views_of(b@)),
{
    if a.len() != b.len() {
        assert(views_of(a@).len() != views_of(b@).len());
        return false;
    }
    let mut i: usize = 0;
    while i < a.len()
        invariant
            i <= a.len(),
            a@.len() == b@.len(),
            forall|j: int| 0 <= j < i ==> a@[j]@ == b@[j]@,
        decreases a.len() - i,
    {
        if !a[i].eq(&b[i]) {
            assert(views_of(a@)[i as int] != views_of(b@)[i as int]);
            return false;
        }
        i += 1;
    }
    proof {
        assert(views_of(a@) =~= views_of(b@));
    }
    true
}

/// Whether `a` is a prefix of `b`.
fn path_is_prefix(a: &Vec<String>, b: &Vec<String>) -> (r: bool)
    ensures
        r == path_prefix(views_of(a@), views_of(b@)),
{
    if a.len() > b.len() {
        return false;
    }
    let mut i: usize = 0;
    while i < a.len()
        invariant
            i <= a.len(),
            a@.len() <= b@.len(),
            forall|j: int| 0 <= j < i ==> a@[j]@ == b@[j]@,
        decreases a.len() - i,
    {
        if !a[i].eq(&b[i]) {
            assert(views_of(a@)[i as int] != views_of(b@).subrange(0, a@.len() as int)[i as int]);
            return false;
        }
        i += 1;
    }
    proof {
        assert(views_of(a@) =~= views_of(b@).subrange(0, a@.len() as int));
    }
    true
}

/// Copy a path.
fn clone_path(p: &Vec<String>) -> (r: Vec<String>)
    ensures
        views_of(r@) == views_of(p@),
        r@.len() == p@.len(),
        forall|j: int| 0 <= j < p@.len() ==> r@[j]@ == p@[j]@,
{
    let mut r: Vec<String> = Vec::new();
    let mut i: usize = 0;
    while i < p.len()
        invariant
            i <= p.len(),
            r@.len() == i,
            forall|j: int| 0 <= j < i ==> r@[j]@ == p@[j]@,
        decreases p.len() - i,
    {
        r.push(p[i].clone());
        i += 1;
    }
    proof {
        assert(views_of(r@) =~= views_of(p@));
    }
    r
}

impl Tree {
    /// A tree with no leaves.
    pub fn new() -> (r: Tree)
        ensures
            r.wf(),
            r.m() == Map::<Seq<Seq<char>>, NodeV>::empty(),
            r.entries@.len() == 0,
    {
        Tree { entries: Vec::new() }
    }

    /// Find the leaf at exactly `p`.
    fn find(&self, p: &Vec<String>) -> (r: Option<usize>)
        requires
            self.wf(),
        ensures
            match r {
                Some(i) => i < self.entries@.len()
                    && views_of(self.entries@[i as int].path@) == views_of(p@)
                    && self.m().contains_key(views_of(p@))
                    && self.m()[views_of(p@)] == node_view(self.entries@[i as int].node),
                None => !self.m().contains_key(views_of(p@)),
            },
    {
        let mut i: usize = 0;
        while i < self.entries.len()
            invariant
                self.wf(),
                i <= self.entries@.len(),
                forall|j: int| 0 <= j < i ==> views_of(self.entries@[j].path@) != views_of(p@),
            decreases self.entries@.len() - i,
        {
            if path_eq(&self.entries[i].path, p) {
                proof {
                    lemma_tree_map_index(self.entries@, i as int);
                }
                return Some(i);
            }
            i += 1;
        }
        proof {
            lemma_tree_map_contains(self.entries@);
        }
        None
    }

    /// Find a leaf whose path is a prefix of `p` or lies on or under `p`.
    fn find_related(&self, p: &Vec<String>) -> (r: Option<usize>)
        requires
            self.wf(),
        ensures
            match r {
                Some(i) => i < self.entries@.len()
                    && (path_prefix(views_of(self.entries@[i as int].path@), views_of(p@))
                        || path_prefix(views_of(p@), views_of(self.entries@[i as int].path@))),
                None => forall|k: Seq<Seq<char>>|
                    self.m().contains_key(k)
                        ==> !path_prefix(k, views_of(p@)) && !path_prefix(views_of(p@), k),
            },
    {
        let mut i: usize = 0;
        while i < self.entries.len()
            invariant
                self.wf(),
                i <= self.entries@.len(),
                forall|j: int| 0 <= j < i
                    ==> !path_prefix(views_of(self.entries@[j].path@), views_of(p@))
                        && !path_prefix(views_of(p@), views_of(self.entries@[j].path@)),
            decreases self.entries@.len() - i,
        {
            if path_is_prefix(&self.entries[i].path, p) || path_is_prefix(p, &self.entries[i].path) {
                return Some(i);
            }
            i += 1;
        }
        proof {
            lemma_tree_map_contains(self.entries@);
        }
        None
    }

    /// Whether some leaf lies strictly under `p`.
    fn has_strict_descendant(&self, p: &Vec<String>) -> (r: bool)
        requires
            self.wf(),
        ensures
            r == exists|k: Seq<Seq<char>>|
                self.m().contains_key(k) && strict_prefix(views_of(p@), k),
    {
        let mut i: usize = 0;
        while i < self.entries.len()
            invariant
                self.wf(),
                i <= self.entries@.len(),
                forall|j: int| 0 <= j < i
                    ==> !strict_prefix(views_of(p@), views_of(self.entries@[j].path@)),
            decreases self.entries@.len() - i,
        {
            if self.entries[i].path.len() > p.len() && path_is_prefix(p, &self.entries[i].path) {
                proof {
                    lemma_tree_map_index(self.entries@, i as int);
                    assert(strict_prefix(views_of(p@), views_of(self.entries@[i as int].path@)));
                    assert(self.m().contains_key(views_of(self.entries@[i as int].path@)));
                }
                return true;
            }
            i += 1;
        }
        proof {
            lemma_tree_map_contains(self.entries@);
            assert forall|k: Seq<Seq<char>>|
                self.m().contains_key(k) implies !strict_prefix(views_of(p@), k) by {
                let j = choose|j: int|
                    0 <= j < self.entries@.len() && views_of(self.entries@[j].path@) == k;
                assert(!strict_prefix(views_of(p@), views_of(self.entries@[j].path@)));
            }
        }
        false
    }

    /// Remove the leaf at index `i`.
    fn remove_at(&mut self, i: usize) -> (r: TreeEntry)
        requires
            old(self).wf(),
            i < old(self).entries@.len(),
        ensures
            final(self).wf(),
            r == old(self).entries@[i as int],
            final(self).m() == old(self).m().remove(views_of(r.path@)),
            final(self).entries@ == old(self).entries@.remove(i as int),
    {
        proof {
            lemma_tree_map_remove(self.entries@, i as int);
        }
        self.entries.remove(i)
    }

    /// Add a leaf at `p`, which must lie neither on nor under an existing
    /// leaf nor above one.
    fn push_leaf(&mut self, p: Vec<String>, node: FsNode)
        requires
            old(self).wf(),
            p@.len() >= 1,
            forall|k: Seq<Seq<char>>|
                old(self).m().contains_key(k)
                    ==> !path_prefix(k, views_of(p@)) && !path_prefix(views_of(p@), k),
        ensures
            final(self).wf(),
            final(self).m() == old(self).m().insert(views_of(p@), node_view(node)),
    {
        proof {
            lemma_tree_map_contains(self.entries@);
            assert(forall|j: int| 0 <= j < self.entries@.len()
                ==> tree_map(self.entries@).contains_key(views_of(self.entries@[j].path@)));
        }
        let ghost s0 = self.entries@;
        self.entries.push(TreeEntry { path: p, node });
        proof {
            assert(self.entries@.drop_last() =~= s0);
            assert forall|i: int, j: int|
                0 <= i < self.entries@.len() && 0 <= j < self.entries@.len() && i != j
                    implies !path_prefix(
                        views_of(self.entries@[i].path@),
                        views_of(self.entries@[j].path@),
                    ) by {
                if i < s0.len() && j < s0.len() {
                    assert(self.entries@[i] == s0[i] && self.entries@[j] == s0[j]);
                }
            }
        }
    }
}


pub proof fn lemma_prefix_trans(a: Seq<Seq<char>>, b: Seq<Seq<char>>, c: Seq<Seq<char>>)
    requires
        path_prefix(a, b),
        path_prefix(b, c),
    ensures
        path_prefix(a, c),
{
    assert(a =~= c.subrange(0, a.len() as int));
}

/// Two prefixes of one path are ordered by prefixing.
pub proof fn lemma_prefix_total(a: Seq<Seq<char>>, b: Seq<Seq<char>>, c: Seq<Seq<char>>)
    requires
        path_prefix(a, c),
        path_prefix(b, c),
        a.len() <= b.len(),
    ensures
        path_prefix(a, b),
{
    assert(a =~= b.subrange(0, a.len() as int));
}

/// A well-formed leaf list denotes a prefix-free map.
pub proof fn lemma_wf_map_pf(s: Seq<TreeEntry>)
    requires
        paths_ok(s),
    ensures
        map_prefix_free(tree_map(s)),
        forall|k: Seq<Seq<char>>| #[trigger] tree_map(s).contains_key(k) ==> k.len() >= 1,
{
    lemma_tree_map_contains(s);
    assert forall|k1: Seq<Seq<char>>, k2: Seq<Seq<char>>|
        tree_map(s).contains_key(k1) && tree_map(s).contains_key(k2) && k1 != k2
            implies !path_prefix(k1, k2) by {
        let i = choose|i: int| 0 <= i < s.len() && views_of(s[i].path@) == k1;
        let j = choose|j: int| 0 <= j < s.len() && views_of(s[j].path@) == k2;
        assert(i != j);
    }
    assert forall|k: Seq<Seq<char>>| tree_map(s).contains_key(k) implies k.len() >= 1 by {
        let i = choose|i: int| 0 <= i < s.len() && views_of(s[i].path@) == k;
        assert(s[i].path@.len() >= 1);
    }
}

/// One step of the reconciliation, for the caller to replay on the real
/// filesystem, in order.
#[derive(Debug, PartialEq, Clone)]
pub enum FsAction {
    /// Create the parent directories of `backup/rel` and rename `to/rel`
    /// (with everything under it) to `backup/rel`.
    MoveToBackup { rel: Vec<String> },
    /// Delete the symlink at `to/rel`.
    RemoveLink { rel: Vec<String> },
    /// Create the parent directories of `to/rel` and a symlink there
    /// pointing at `from/rel`.
    CreateLink { rel: Vec<String> },
}

/// The mathematical value of one action.
pub enum ActV {
    MoveToBackup(Seq<Seq<char>>),
    RemoveLink(Seq<Seq<char>>),
    CreateLink(Seq<Seq<char>>),
}

pub open spec fn act_view(a: FsAction) -> ActV {
    match a {
        FsAction::MoveToBackup { rel } => ActV::MoveToBackup(views_of(rel@)),
        FsAction::RemoveLink { rel } => ActV::RemoveLink(views_of(rel@)),
        FsAction::CreateLink { rel } => ActV::CreateLink(views_of(rel@)),
    }
}

pub open spec fn acts_view(s: Seq<FsAction>) -> Seq<ActV> {
    s.map_values(|a: FsAction| act_view(a))
}

/// Move the whole subtree of `to` at `rel` into `backup` at the same
/// relative path, never overwriting anything already in `backup`: a backup
/// leaf above `rel` means the scaffolding directories cannot be created, and
/// one at or below `rel` means the rename would clobber it.
fn displace(
    to: &mut Tree,
    backup: &mut Tree,
    rel: &Vec<String>,
    acts: &mut Vec<FsAction>,
) -> (r: Result<(), LinkError>)
    requires
        old(to).wf(),
        old(backup).wf(),
        rel@.len() >= 1,
    ensures
        final(to).wf(),
        final(backup).wf(),
        match r {
            Ok(()) => {
                &&& (forall|k: Seq<Seq<char>>| #[trigger] old(backup).m().contains_key(k)
                    ==> !path_prefix(k, views_of(rel@)) && !path_prefix(views_of(rel@), k))
                &&& (forall|k: Seq<Seq<char>>| path_prefix(views_of(rel@), k)
                    && #[trigger] old(to).m().contains_key(k)
                    ==> !final(to).m().contains_key(k)
                        && final(backup).m().contains_key(k)
                        && final(backup).m()[k] == old(to).m()[k])
                &&& (forall|k: Seq<Seq<char>>| !path_prefix(views_of(rel@), k) ==> {
                    &&& final(to).m().contains_key(k) == old(to).m().contains_key(k)
                    &&& (old(to).m().contains_key(k) ==> final(to).m()[k] == old(to).m()[k])
                    &&& final(backup).m().contains_key(k) == old(backup).m().contains_key(k)
                    &&& (old(backup).m().contains_key(k)
                        ==> final(backup).m()[k] == old(backup).m()[k])
                })
                &&& (forall|k: Seq<Seq<char>>| #[trigger] final(to).m().contains_key(k)
                    ==> old(to).m().contains_key(k) && final(to).m()[k] == old(to).m()[k])
                &&& (forall|k: Seq<Seq<char>>| #[trigger] final(backup).m().contains_key(k)
                    ==> (old(backup).m().contains_key(k)
                            && final(backup).m()[k] == old(backup).m()[k])
                        || (old(to).m().contains_key(k)
                            && final(backup).m()[k] == old(to).m()[k]
                            && path_prefix(views_of(rel@), k)))
                &&& acts_view(final(acts)@) == acts_view(old(acts)@).push(
                    ActV::MoveToBackup(views_of(rel@)),
                )
            },
            Err(e) => {
                &&& final(to).m() == old(to).m()
                &&& final(backup).m() == old(backup).m()
                &&& acts_view(final(acts)@) == acts_view(old(acts)@)
                &&& (exists|k: Seq<Seq<char>>| #[trigger] old(backup).m().contains_key(k)
                    && (path_prefix(k, views_of(rel@)) || path_prefix(views_of(rel@), k)))
                &&& (e is CreateDirError || e is RenameError)
            },
        },
{
    let ghost relv = views_of(rel@);
    match backup.find_related(rel) {
        Some(ci) => {
            proof {
                lemma_tree_map_index(backup.entries@, ci as int);
            }
            let bad = clone_path(&backup.entries[ci].path);
            if backup.entries[ci].path.len() < rel.len() {
                return Err(LinkError::CreateDirError { path: bad });
            } else {
                return Err(LinkError::RenameError {
                    from_path: clone_path(rel),
                    to_path: bad,
                });
            }
        },
        None => {},
    }
    let ghost t0 = to.m();
    let ghost b0 = backup.m();
    proof {
        lemma_wf_map_pf(to.entries@);
        lemma_wf_map_pf(backup.entries@);
    }
    let mut i: usize = 0;
    while i < to.entries.len()
        invariant
            to.wf(),
            backup.wf(),
            rel@.len() >= 1,
            relv == views_of(rel@),
            i <= to.entries@.len(),
            map_prefix_free(t0),
            forall|k: Seq<Seq<char>>| #[trigger] t0.contains_key(k) ==> k.len() >= 1,
            forall|k: Seq<Seq<char>>| #[trigger] b0.contains_key(k)
                ==> !path_prefix(k, relv) && !path_prefix(relv, k),
            forall|j: int| 0 <= j < i
                ==> !path_prefix(relv, views_of(to.entries@[j].path@)),
            forall|k: Seq<Seq<char>>| #[trigger] to.m().contains_key(k)
                ==> t0.contains_key(k) && to.m()[k] == t0[k],
            forall|k: Seq<Seq<char>>| #[trigger] t0.contains_key(k) && !to.m().contains_key(k)
                ==> path_prefix(relv, k)
                    && backup.m().contains_key(k) && backup.m()[k] == t0[k],
            forall|k: Seq<Seq<char>>| #[trigger] t0.contains_key(k) && !path_prefix(relv, k)
                ==> to.m().contains_key(k),
            forall|k: Seq<Seq<char>>| #[trigger] backup.m().contains_key(k)
                ==> (b0.contains_key(k) && backup.m()[k] == b0[k])
                    || (t0.contains_key(k) && !to.m().contains_key(k)),
            forall|k: Seq<Seq<char>>| #[trigger] b0.contains_key(k)
                ==> backup.m().contains_key(k) && backup.m()[k] == b0[k],
        decreases to.entries@.len() - i,
    {
        if path_is_prefix(rel, &to.entries[i].path) {
            proof {
                lemma_tree_map_index(to.entries@, i as int);
            }
            let e = to.remove_at(i);
            let ghost ep = views_of(e.path@);
            proof {
                assert forall|k: Seq<Seq<char>>| backup.m().contains_key(k)
                    implies !path_prefix(k, ep) && !path_prefix(ep, k) by {
                    if b0.contains_key(k) {
                        if path_prefix(k, ep) {
                            if k.len() <= relv.len() {
                                lemma_prefix_total(k, relv, ep);
                            } else {
                                lemma_prefix_total(relv, k, ep);
                            }
                        }
                        if path_prefix(ep, k) {
                            lemma_prefix_trans(relv, ep, k);
                        }
                    } else {
                        assert(t0.contains_key(k) && !to.m().contains_key(k));
                        assert(t0.contains_key(ep));
                        if k != ep {
                            assert(!path_prefix(k, ep) && !path_prefix(ep, k));
                        } else {
                            assert(to.m().contains_key(ep));
                        }
                    }
                }
            }
            backup.push_leaf(e.path, e.node);
        } else {
            i += 1;
        }
    }
    proof {
        lemma_tree_map_contains(to.entries@);
        assert forall|k: Seq<Seq<char>>| path_prefix(relv, k) && t0.contains_key(k)
            implies !to.m().contains_key(k) by {
            if to.m().contains_key(k) {
                let j = choose|j: int|
                    0 <= j < to.entries@.len() && views_of(to.entries@[j].path@) == k;
            }
        }
    }
    let ghost a0 = acts@;
    acts.push(FsAction::MoveToBackup { rel: clone_path(rel) });
    proof {
        assert(acts@.drop_last() =~= a0);
        assert(acts_view(acts@) =~= acts_view(a0).push(ActV::MoveToBackup(relv)));
    }
    Ok(())
}


/// `a` and `b` are prefixes of `c` of the same length, so they are equal.
proof fn lemma_prefix_unique_len(a: Seq<Seq<char>>, b: Seq<Seq<char>>, c: Seq<Seq<char>>)
    requires
        path_prefix(a, c),
        path_prefix(b, c),
        a.len() == b.len(),
    ensures
        a == b,
{
    assert(a =~= b);
}

/// The first `l` components of a path.
fn path_take(p: &Vec<String>, l: usize) -> (r: Vec<String>)
    requires
        l <= p@.len(),
    ensures
        views_of(r@) == views_of(p@).subrange(0, l as int),
        r@.len() == l,
{
    let mut r: Vec<String> = Vec::new();
    let mut i: usize = 0;
    while i < l
        invariant
            i <= l,
            l <= p@.len(),
            r@.len() == i,
            forall|j: int| 0 <= j < i ==> r@[j]@ == p@[j]@,
        decreases l - i,
    {
        r.push(p[i].clone());
        i += 1;
    }
    proof {
        assert(views_of(r@) =~= views_of(p@).subrange(0, l as int));
    }
    r
}

/// The concatenation of two paths.
fn path_concat(a: &Vec<String>, b: &Vec<String>) -> (r: Vec<String>)
    ensures
        views_of(r@) == views_of(a@) + views_of(b@),
        r@.len() == a@.len() + b@.len(),
{
    let mut r: Vec<String> = clone_path(a);
    let mut i: usize = 0;
    while i < b.len()
        invariant
            i <= b.len(),
            r@.len() == a@.len() + i,
            forall|j: int| 0 <= j < a@.len() ==> r@[j]@ == a@[j]@,
            forall|j: int| 0 <= j < i ==> r@[a@.len() + j]@ == b@[j]@,
        decreases b.len() - i,
    {
        r.push(b[i].clone());
        i += 1;
    }
    proof {
        assert(views_of(r@) =~= views_of(a@) + views_of(b@));
    }
    r
}


/// Clear the ancestors of `to/rel` so its parent directory can be created:
/// walking from the immediate parent up to the root, a regular file at an
/// ancestor path is moved into the backup tree, a symlink there is removed,
/// and an empty directory simply gains content (it stays in place and stops
/// being a leaf).
fn create_parent_dir(
    to: &mut Tree,
    backup: &mut Tree,
    rel: &Vec<String>,
    acts: &mut Vec<FsAction>,
) -> (r: Result<(), LinkError>)
    requires
        old(to).wf(),
        old(backup).wf(),
        rel@.len() >= 1,
    ensures
        final(to).wf(),
        final(backup).wf(),
        r is Ok ==> forall|k: Seq<Seq<char>>| strict_prefix(k, views_of(rel@))
            ==> !final(to).m().contains_key(k),
        forall|k: Seq<Seq<char>>| #[trigger] final(to).m().contains_key(k)
            ==> old(to).m().contains_key(k) && final(to).m()[k] == old(to).m()[k],
        forall|k: Seq<Seq<char>>| #[trigger] old(to).m().contains_key(k)
            && !strict_prefix(k, views_of(rel@)) ==> final(to).m().contains_key(k),
        forall|k: Seq<Seq<char>>, c: u64| old(to).m().contains_key(k)
            && old(to).m()[k] == NodeV::File(c)
            ==> (final(to).m().contains_key(k) && final(to).m()[k] == NodeV::File(c))
                || (final(backup).m().contains_key(k)
                    && final(backup).m()[k] == NodeV::File(c)),
        forall|k: Seq<Seq<char>>| old(to).m().contains_key(k)
            && old(to).m()[k] == NodeV::EmptyDir
            ==> (final(to).m().contains_key(k) && final(to).m()[k] == NodeV::EmptyDir)
                || (final(backup).m().contains_key(k)
                    && final(backup).m()[k] == NodeV::EmptyDir)
                || strict_prefix(k, views_of(rel@)),
        forall|k: Seq<Seq<char>>| #[trigger] old(backup).m().contains_key(k)
            ==> final(backup).m().contains_key(k)
                && final(backup).m()[k] == old(backup).m()[k],
        forall|k: Seq<Seq<char>>| #[trigger] final(backup).m().contains_key(k)
            && !old(backup).m().contains_key(k)
            ==> strict_prefix(k, views_of(rel@)) && old(to).m().contains_key(k)
                && final(backup).m()[k] == old(to).m()[k],
        (forall|k: Seq<Seq<char>>| !(strict_prefix(k, views_of(rel@))
            && #[trigger] old(to).m().contains_key(k))) ==> {
            &&& final(to).m() == old(to).m()
            &&& final(backup).m() == old(backup).m()
            &&& acts_view(final(acts)@) == acts_view(old(acts)@)
            &&& r is Ok
        },
        (forall|k: Seq<Seq<char>>| strict_prefix(k, views_of(rel@))
            && #[trigger] old(to).m().contains_key(k) ==> old(to).m()[k] is Link) ==> {
            &&& final(backup).m() == old(backup).m()
            &&& r is Ok
        },
        r matches Err(e) ==> e is CreateDirError || e is RenameError,
        r is Err ==> exists|k: Seq<Seq<char>>, a: Seq<Seq<char>>|
            #[trigger] final(backup).m().contains_key(k)
            && #[trigger] strict_prefix(a, views_of(rel@))
            && (path_prefix(k, a) || path_prefix(a, k))
            && final(to).m().contains_key(a) && final(to).m()[a] is File,
        forall|k: Seq<Seq<char>>| #[trigger] final(backup).m().contains_key(k)
            && !old(backup).m().contains_key(k) ==> !final(to).m().contains_key(k),
{
    let ghost relv = views_of(rel@);
    let ghost t00 = to.m();
    let ghost b00 = backup.m();
    let ghost a00 = acts_view(acts@);
    if rel.len() == 1 {
        proof {
            assert forall|k: Seq<Seq<char>>| !(strict_prefix(k, relv)
                && t00.contains_key(k)) by {
                lemma_wf_map_pf(to.entries@);
                if strict_prefix(k, relv) && t00.contains_key(k) {
                    assert(k.len() >= 1);
                }
            }
        }
        return Ok(());
    }
    let mut l: usize = rel.len() - 1;
    while l >= 1
        invariant
            to.wf(),
            backup.wf(),
            rel@.len() >= 1,
            relv == views_of(rel@),
            l <= rel@.len() - 1,
            t00 == old(to).m(),
            b00 == old(backup).m(),
            a00 == acts_view(old(acts)@),
            forall|k: Seq<Seq<char>>| strict_prefix(k, relv) && k.len() > l
                ==> !to.m().contains_key(k),
            forall|k: Seq<Seq<char>>| #[trigger] to.m().contains_key(k)
                ==> t00.contains_key(k) && to.m()[k] == t00[k],
            forall|k: Seq<Seq<char>>| #[trigger] t00.contains_key(k)
                && !strict_prefix(k, relv) ==> to.m().contains_key(k),
            forall|k: Seq<Seq<char>>, c: u64| t00.contains_key(k) && t00[k] == NodeV::File(c)
                ==> (to.m().contains_key(k) && to.m()[k] == NodeV::File(c))
                    || (backup.m().contains_key(k) && backup.m()[k] == NodeV::File(c)),
            forall|k: Seq<Seq<char>>| t00.contains_key(k) && t00[k] == NodeV::EmptyDir
                ==> (to.m().contains_key(k) && to.m()[k] == NodeV::EmptyDir)
                    || (backup.m().contains_key(k) && backup.m()[k] == NodeV::EmptyDir)
                    || strict_prefix(k, relv),
            forall|k: Seq<Seq<char>>| #[trigger] b00.contains_key(k)
                ==> backup.m().contains_key(k) && backup.m()[k] == b00[k],
            forall|k: Seq<Seq<char>>| #[trigger] backup.m().contains_key(k)
                && !b00.contains_key(k)
                ==> strict_prefix(k, relv) && t00.contains_key(k)
                    && backup.m()[k] == t00[k],
            forall|k: Seq<Seq<char>>| #[trigger] backup.m().contains_key(k)
                && !b00.contains_key(k) ==> !to.m().contains_key(k),
            (forall|k: Seq<Seq<char>>| !(strict_prefix(k, relv)
                && #[trigger] t00.contains_key(k))) ==> {
                &&& to.m() == t00
                &&& backup.m() == b00
                &&& acts_view(acts@) == a00
            },
            (forall|k: Seq<Seq<char>>| strict_prefix(k, relv)
                && #[trigger] t00.contains_key(k) ==> t00[k] is Link)
                ==> backup.m() == b00,
        decreases l,
    {
        let a = path_take(rel, l);
        let ghost av = views_of(a@);
        proof {
            assert(strict_prefix(av, relv));
            assert forall|k: Seq<Seq<char>>| strict_prefix(k, relv) && k.len() == l
                implies k == av by {
                lemma_prefix_unique_len(k, av, relv);
            }
        }
        match to.find(&a) {
            Some(i) => {
                proof {
                    lemma_tree_map_index(to.entries@, i as int);
                    lemma_wf_map_pf(to.entries@);
                }
                let is_file = matches!(&to.entries[i].node, FsNode::File(_));
                let is_link = matches!(&to.entries[i].node, FsNode::Symlink(_));
                if is_file {
                    match displace(to, backup, &a, acts) {
                        Ok(()) => {},
                        Err(e) => {
                            proof {
                                let bad = choose|k: Seq<Seq<char>>|
                                    #[trigger] backup.m().contains_key(k)
                                    && (path_prefix(k, av) || path_prefix(av, k));
                                assert(backup.m().contains_key(bad)
                                    && strict_prefix(av, relv)
                                    && (path_prefix(bad, av) || path_prefix(av, bad))
                                    && to.m().contains_key(av) && to.m()[av] is File);
                            }
                            return Err(e);
                        },
                    }
                } else if is_link {
                    let ghost acts0 = acts@;
                    let e = to.remove_at(i);
                    acts.push(FsAction::RemoveLink { rel: e.path });
                    proof {
                        assert(acts@.drop_last() =~= acts0);
                    }
                } else {
                    // An empty directory gains content and stops being a leaf.
                    let _e = to.remove_at(i);
                }
            },
            None => {},
        }
        proof {
            lemma_prefix_refl(av);
            assert(!to.m().contains_key(av));
        }
        l -= 1;
    }
    proof {
        assert forall|k: Seq<Seq<char>>| strict_prefix(k, relv)
            implies !to.m().contains_key(k) by {
            if to.m().contains_key(k) {
                lemma_wf_map_pf(to.entries@);
                assert(k.len() >= 1);
            }
        }
    }
    Ok(())
}


/// Ensure `to/rel` is a symlink to `from_abs/rel`, once the ancestors are
/// clear: an already-correct link is left alone; a link elsewhere is
/// removed; a file, an empty directory, or a directory with content is
/// moved into the backup tree; then the link is created.
fn link_path(
    to: &mut Tree,
    backup: &mut Tree,
    rel: &Vec<String>,
    from_abs: &Vec<String>,
    acts: &mut Vec<FsAction>,
) -> (r: Result<(), LinkError>)
    requires
        old(to).wf(),
        old(backup).wf(),
        rel@.len() >= 1,
        forall|k: Seq<Seq<char>>| strict_prefix(k, views_of(rel@))
            ==> !old(to).m().contains_key(k),
    ensures
        final(to).wf(),
        final(backup).wf(),
        r is Ok ==> final(to).m().contains_key(views_of(rel@))
            && final(to).m()[views_of(rel@)]
                == NodeV::Link(views_of(from_abs@) + views_of(rel@)),
        forall|k: Seq<Seq<char>>| !path_prefix(views_of(rel@), k) ==> {
            &&& final(to).m().contains_key(k) == old(to).m().contains_key(k)
            &&& (old(to).m().contains_key(k) ==> final(to).m()[k] == old(to).m()[k])
            &&& final(backup).m().contains_key(k) == old(backup).m().contains_key(k)
            &&& (old(backup).m().contains_key(k)
                ==> final(backup).m()[k] == old(backup).m()[k])
        },
        forall|k: Seq<Seq<char>>| #[trigger] final(to).m().contains_key(k)
            && !(old(to).m().contains_key(k) && final(to).m()[k] == old(to).m()[k])
            ==> k == views_of(rel@)
                && final(to).m()[k] == NodeV::Link(views_of(from_abs@) + views_of(rel@)),
        forall|k: Seq<Seq<char>>, c: u64| old(to).m().contains_key(k)
            && old(to).m()[k] == NodeV::File(c)
            ==> (final(to).m().contains_key(k) && final(to).m()[k] == NodeV::File(c))
                || (final(backup).m().contains_key(k)
                    && final(backup).m()[k] == NodeV::File(c)),
        forall|k: Seq<Seq<char>>| old(to).m().contains_key(k)
            && old(to).m()[k] == NodeV::EmptyDir
            ==> (final(to).m().contains_key(k) && final(to).m()[k] == NodeV::EmptyDir)
                || (final(backup).m().contains_key(k)
                    && final(backup).m()[k] == NodeV::EmptyDir),
        forall|k: Seq<Seq<char>>| #[trigger] old(backup).m().contains_key(k)
            ==> final(backup).m().contains_key(k)
                && final(backup).m()[k] == old(backup).m()[k],
        forall|k: Seq<Seq<char>>| #[trigger] final(backup).m().contains_key(k)
            && !old(backup).m().contains_key(k)
            ==> path_prefix(views_of(rel@), k) && old(to).m().contains_key(k)
                && final(backup).m()[k] == old(to).m()[k],
        (old(to).m().contains_key(views_of(rel@))
            && old(to).m()[views_of(rel@)]
                == NodeV::Link(views_of(from_abs@) + views_of(rel@))) ==> {
            &&& final(to).m() == old(to).m()
            &&& final(backup).m() == old(backup).m()
            &&& acts_view(final(acts)@) == acts_view(old(acts)@)
            &&& r is Ok
        },
        ((old(to).m().contains_key(views_of(rel@))
            ==> old(to).m()[views_of(rel@)] is Link)
            && (forall|k: Seq<Seq<char>>| strict_prefix(views_of(rel@), k)
                ==> !old(to).m().contains_key(k))) ==> {
            &&& final(backup).m() == old(backup).m()
            &&& r is Ok
        },
        r matches Err(e) ==> e is CreateDirError || e is RenameError,
        r is Err ==> (exists|k: Seq<Seq<char>>| #[trigger] final(backup).m().contains_key(k)
                && (path_prefix(k, views_of(rel@)) || path_prefix(views_of(rel@), k)))
            && ((old(to).m().contains_key(views_of(rel@))
                    && !(old(to).m()[views_of(rel@)] is Link))
                || (exists|d: Seq<Seq<char>>| #[trigger] old(to).m().contains_key(d)
                    && strict_prefix(views_of(rel@), d))),
        forall|k: Seq<Seq<char>>| #[trigger] final(backup).m().contains_key(k)
            && !old(backup).m().contains_key(k)
            ==> !final(to).m().contains_key(k)
                || (k == views_of(rel@) && final(to).m()[k] is Link),
        r is Err ==> final(to).m() == old(to).m()
            && final(backup).m() == old(backup).m()
            && acts_view(final(acts)@) == acts_view(old(acts)@),
{
    let ghost relv = views_of(rel@);
    let ghost t00 = to.m();
    let ghost b00 = backup.m();
    let tgt = path_concat(from_abs, rel);
    let ghost tgtv = views_of(from_abs@) + views_of(rel@);
    proof {
        lemma_wf_map_pf(to.entries@);
        lemma_prefix_refl(relv);
    }
    match to.find(rel) {
        Some(i) => {
            proof {
                lemma_tree_map_index(to.entries@, i as int);
            }
            let is_correct = match &to.entries[i].node {
                FsNode::Symlink(t) => path_eq(t, &tgt),
                _ => false,
            };
            if is_correct {
                return Ok(());
            }
            let is_link = matches!(&to.entries[i].node, FsNode::Symlink(_));
            if is_link {
                let ghost acts0 = acts@;
                let e = to.remove_at(i);
                acts.push(FsAction::RemoveLink { rel: e.path });
                proof {
                    assert(acts@.drop_last() =~= acts0);
                }
            } else {
                match displace(to, backup, rel, acts) {
                    Ok(()) => {},
                    Err(e) => {
                        return Err(e);
                    },
                }
                proof {
                    assert(!to.m().contains_key(relv));
                }
            }
        },
        None => {
            if to.has_strict_descendant(rel) {
                match displace(to, backup, rel, acts) {
                    Ok(()) => {},
                    Err(e) => {
                        return Err(e);
                    },
                }
            }
        },
    }
    proof {
        lemma_wf_map_pf(to.entries@);
        assert forall|k: Seq<Seq<char>>| to.m().contains_key(k)
            implies !path_prefix(k, relv) && !path_prefix(relv, k) by {
            assert(k.len() >= 1);
            if path_prefix(relv, k) {
                if relv.len() == k.len() {
                    assert(relv =~= k);
                    assert(!to.m().contains_key(relv));
                } else {
                    assert(strict_prefix(relv, k));
                }
            }
            if path_prefix(k, relv) && k != relv {
                if k.len() == relv.len() {
                    assert(k =~= relv);
                } else {
                    assert(strict_prefix(k, relv));
                    assert(!t00.contains_key(k));
                }
            }
        }
    }
    let ghost acts1 = acts@;
    to.push_leaf(clone_path(rel), FsNode::Symlink(tgt));
    acts.push(FsAction::CreateLink { rel: clone_path(rel) });
    proof {
        assert(acts@.drop_last() =~= acts1);
    }
    Ok(())
}


/// A source entry: a leaf of the source tree that is not a directory.
pub open spec fn source_entry(fm: Map<Seq<Seq<char>>, NodeV>, e: Seq<Seq<char>>) -> bool {
    fm.contains_key(e) && !(fm[e] is EmptyDir)
}

/// Every source entry is linked: `to/e` is a symlink to `from_abs/e`.
pub open spec fn synced(
    fm: Map<Seq<Seq<char>>, NodeV>,
    tm: Map<Seq<Seq<char>>, NodeV>,
    fav: Seq<Seq<char>>,
) -> bool {
    forall|e: Seq<Seq<char>>| #[trigger] source_entry(fm, e)
        ==> tm.contains_key(e) && tm[e] == NodeV::Link(fav + e)
}

/// Nothing in the target tree blocks any source entry: every target leaf on
/// the path of an entry is a symlink (to be removed or replaced, never
/// backed up), and no target leaf lies strictly below an entry.
pub open spec fn conflict_free(
    fm: Map<Seq<Seq<char>>, NodeV>,
    tm: Map<Seq<Seq<char>>, NodeV>,
) -> bool {
    forall|e: Seq<Seq<char>>, k: Seq<Seq<char>>|
        #[trigger] source_entry(fm, e) && #[trigger] tm.contains_key(k)
            ==> (path_prefix(k, e) ==> tm[k] is Link) && !strict_prefix(e, k)
}

/// A target tree in which every source entry is already correctly linked is
/// conflict-free, so running the synchronizer again succeeds, changes no
/// tree, and takes no backup: the reconciliation is idempotent.
pub proof fn lemma_synced_is_conflict_free(
    fm: Map<Seq<Seq<char>>, NodeV>,
    tm: Map<Seq<Seq<char>>, NodeV>,
    fav: Seq<Seq<char>>,
)
    requires
        map_prefix_free(tm),
        synced(fm, tm, fav),
    ensures
        conflict_free(fm, tm),
{
    assert forall|e: Seq<Seq<char>>, k: Seq<Seq<char>>|
        source_entry(fm, e) && tm.contains_key(k)
            implies (path_prefix(k, e) ==> tm[k] is Link) && !strict_prefix(e, k) by {
        assert(tm.contains_key(e) && tm[e] == NodeV::Link(fav + e));
        if path_prefix(k, e) && k != e {
            assert(false);
        }
        if strict_prefix(e, k) {
            assert(false);
        }
    }
}

/// Reconcile the source tree into the target tree.
///
/// Walks the source tree; for every leaf that is not a directory, clears the
/// ancestors of its target path, then ensures the target path is a symlink
/// to the absolute source path, moving displaced files and directories into
/// the backup tree.  Returns the actions taken, for the caller to replay on
/// the real filesystem, together with the outcome; on a failure the actions
/// already returned have been decided and stand, and the walk stops.
pub fn run(
    from: &Tree,
    to: &mut Tree,
    backup: &mut Tree,
    from_abs: &Vec<String>,
) -> (r: (Vec<FsAction>, Result<(), LinkError>))
    requires
        from.wf(),
        old(to).wf(),
        old(backup).wf(),
    ensures
        final(to).wf(),
        final(backup).wf(),
        r.1 is Ok ==> synced(from.m(), final(to).m(), views_of(from_abs@)),
        r.1 matches Err(e) ==> e is CreateDirError || e is RenameError,
        forall|k: Seq<Seq<char>>, c: u64| old(to).m().contains_key(k)
            && old(to).m()[k] == NodeV::File(c)
            ==> (final(to).m().contains_key(k) && final(to).m()[k] == NodeV::File(c))
                || (final(backup).m().contains_key(k)
                    && final(backup).m()[k] == NodeV::File(c)),
        forall|k: Seq<Seq<char>>| old(to).m().contains_key(k)
            && old(to).m()[k] == NodeV::EmptyDir
            ==> (final(to).m().contains_key(k) && final(to).m()[k] == NodeV::EmptyDir)
                || (final(backup).m().contains_key(k)
                    && final(backup).m()[k] == NodeV::EmptyDir)
                || (exists|e: Seq<Seq<char>>| #[trigger] source_entry(from.m(), e)
                    && strict_prefix(k, e)),
        forall|k: Seq<Seq<char>>| #[trigger] final(to).m().contains_key(k)
            && !(final(to).m()[k] is Link)
            ==> old(to).m().contains_key(k) && final(to).m()[k] == old(to).m()[k],
        forall|k: Seq<Seq<char>>| #[trigger] old(backup).m().contains_key(k)
            ==> final(backup).m().contains_key(k)
                && final(backup).m()[k] == old(backup).m()[k],
        forall|k: Seq<Seq<char>>| #[trigger] final(backup).m().contains_key(k)
            && !old(backup).m().contains_key(k)
            ==> old(to).m().contains_key(k) && final(backup).m()[k] == old(to).m()[k],
        conflict_free(from.m(), old(to).m()) ==> {
            &&& r.1 is Ok
            &&& final(backup).m() == old(backup).m()
        },
        (forall|k: Seq<Seq<char>>| !(#[trigger] old(backup).m().contains_key(k)))
            ==> r.1 is Ok,
        synced(from.m(), old(to).m(), views_of(from_abs@)) ==> {
            &&& final(to).m() == old(to).m()
            &&& final(backup).m() == old(backup).m()
            &&& r.0@.len() == 0
            &&& r.1 is Ok
        },
{
    let ghost fm = from.m();
    let ghost fav = views_of(from_abs@);
    let ghost t0 = to.m();
    let ghost b0 = backup.m();
    let mut acts: Vec<FsAction> = Vec::new();
    proof {
        lemma_wf_map_pf(to.entries@);
    }
    let mut i: usize = 0;
    while i < from.entries.len()
        invariant
            from.wf(),
            to.wf(),
            backup.wf(),
            i <= from.entries@.len(),
            fm == from.m(),
            fav == views_of(from_abs@),
            t0 == old(to).m(),
            b0 == old(backup).m(),
            map_prefix_free(t0),
            forall|k: Seq<Seq<char>>| #[trigger] t0.contains_key(k) ==> k.len() >= 1,
            forall|j: int| 0 <= j < i && !(from.entries@[j].node is EmptyDir)
                ==> to.m().contains_key(views_of(from.entries@[j].path@))
                    && to.m()[views_of(from.entries@[j].path@)]
                        == NodeV::Link(fav + views_of(from.entries@[j].path@)),
            forall|k: Seq<Seq<char>>, c: u64| t0.contains_key(k) && t0[k] == NodeV::File(c)
                ==> (to.m().contains_key(k) && to.m()[k] == NodeV::File(c))
                    || (backup.m().contains_key(k) && backup.m()[k] == NodeV::File(c)),
            forall|k: Seq<Seq<char>>| t0.contains_key(k) && t0[k] == NodeV::EmptyDir
                ==> (to.m().contains_key(k) && to.m()[k] == NodeV::EmptyDir)
                    || (backup.m().contains_key(k) && backup.m()[k] == NodeV::EmptyDir)
                    || (exists|e: Seq<Seq<char>>| #[trigger] source_entry(fm, e)
                        && strict_prefix(k, e)),
            forall|k: Seq<Seq<char>>| #[trigger] to.m().contains_key(k)
                && !(to.m().contains_key(k) && to.m()[k] is Link
                        && !(t0.contains_key(k) && t0[k] == to.m()[k]))
                ==> t0.contains_key(k) && to.m()[k] == t0[k],
            forall|k: Seq<Seq<char>>| #[trigger] to.m().contains_key(k)
                && !(t0.contains_key(k) && to.m()[k] == t0[k])
                ==> to.m()[k] == NodeV::Link(fav + k)
                    && (exists|j: int| 0 <= j < i
                        && views_of(from.entries@[j].path@) == k
                        && !(from.entries@[j].node is EmptyDir)),
            forall|k: Seq<Seq<char>>| #[trigger] b0.contains_key(k)
                ==> backup.m().contains_key(k) && backup.m()[k] == b0[k],
            forall|k: Seq<Seq<char>>| #[trigger] backup.m().contains_key(k)
                && !b0.contains_key(k)
                ==> t0.contains_key(k) && backup.m()[k] == t0[k],
            forall|k: Seq<Seq<char>>| #[trigger] backup.m().contains_key(k)
                && !b0.contains_key(k)
                ==> !to.m().contains_key(k) || to.m()[k] is Link,
            forall|k: Seq<Seq<char>>| #[trigger] backup.m().contains_key(k)
                && !b0.contains_key(k)
                ==> exists|j: int| 0 <= j < i && !(from.entries@[j].node is EmptyDir)
                    && (path_prefix(k, views_of(from.entries@[j].path@))
                        || path_prefix(views_of(from.entries@[j].path@), k)),
            conflict_free(fm, t0) ==> backup.m() == b0,
            synced(fm, t0, fav) ==> {
                &&& to.m() == t0
                &&& backup.m() == b0
                &&& acts@.len() == 0
            },
        decreases from.entries@.len() - i,
    {
        let is_dir = matches!(&from.entries[i].node, FsNode::EmptyDir);
        if !is_dir {
            let rel = &from.entries[i].path;
            let ghost relv = views_of(rel@);
            proof {
                lemma_tree_map_index(from.entries@, i as int);
                assert(source_entry(fm, relv));
                // Earlier entries are never on or under this entry's path.
                assert forall|j: int| 0 <= j < from.entries@.len() && j != i as int
                    implies !path_prefix(views_of(from.entries@[j].path@), relv)
                        && !path_prefix(relv, views_of(from.entries@[j].path@)) by {}
                if conflict_free(fm, t0) {
                    assert forall|k: Seq<Seq<char>>| strict_prefix(k, relv)
                        && #[trigger] to.m().contains_key(k)
                        implies to.m()[k] is Link by {
                        if t0.contains_key(k) && to.m()[k] == t0[k] {
                            assert(path_prefix(k, relv));
                        }
                    }
                }
            }
            let ghost to_before = to.m();
            let ghost bk_before = backup.m();
            let ghost acts_before = acts@;
            match create_parent_dir(to, backup, rel, &mut acts) {
                Ok(()) => {},
                Err(e) => {
                    proof {
                        if conflict_free(fm, t0) {
                            assert(false);
                        }
                        if synced(fm, t0, fav) {
                            lemma_synced_is_conflict_free(fm, t0, fav);
                            assert(false);
                        }
                        if forall|k2: Seq<Seq<char>>| !(#[trigger] b0.contains_key(k2)) {
                            let (bad, anc) = choose|bad: Seq<Seq<char>>, anc: Seq<Seq<char>>|
                                #[trigger] backup.m().contains_key(bad)
                                && #[trigger] strict_prefix(anc, relv)
                                && (path_prefix(bad, anc) || path_prefix(anc, bad))
                                && to.m().contains_key(anc) && to.m()[anc] is File;
                            // The blocking ancestor is an untouched original file,
                            assert(to_before.contains_key(anc)
                                && to_before[anc] == to.m()[anc]);
                            assert(t0.contains_key(anc) && t0[anc] is File);
                            // and whatever sits in the backup came out of `to`.
                            if bk_before.contains_key(bad) {
                                assert(t0.contains_key(bad));
                                if bad != anc {
                                    assert(!path_prefix(bad, anc) && !path_prefix(anc, bad));
                                }
                                assert(bad == anc);
                                assert(!to_before.contains_key(anc)
                                    || to_before[anc] is Link);
                            } else {
                                assert(strict_prefix(bad, relv)
                                    && to_before.contains_key(bad)
                                    && !to.m().contains_key(bad));
                                assert(t0.contains_key(bad));
                                if bad != anc {
                                    assert(!path_prefix(bad, anc) && !path_prefix(anc, bad));
                                }
                                assert(bad == anc);
                            }
                            assert(false);
                        }
                    }
                    return (acts, Err(e));
                },
            }
            proof {
                if conflict_free(fm, t0) {
                    assert forall|k: Seq<Seq<char>>| strict_prefix(relv, k)
                        implies !to.m().contains_key(k) by {
                        if to.m().contains_key(k) {
                            if t0.contains_key(k) && to.m()[k] == t0[k] {
                                assert(!strict_prefix(relv, k));
                            } else {
                                let j = choose|j: int| 0 <= j < i
                                    && views_of(from.entries@[j].path@) == k
                                    && !(from.entries@[j].node is EmptyDir);
                                assert(!path_prefix(relv, views_of(from.entries@[j].path@)));
                            }
                        }
                    }
                    if to.m().contains_key(relv) {
                        if t0.contains_key(relv) && to.m()[relv] == t0[relv] {
                            lemma_prefix_refl(relv);
                            assert(to.m()[relv] is Link);
                        }
                    }
                }
                if synced(fm, t0, fav) {
                    lemma_synced_is_conflict_free(fm, t0, fav);
                    assert(t0.contains_key(relv) && t0[relv] == NodeV::Link(fav + relv));
                    assert forall|k: Seq<Seq<char>>| !(strict_prefix(k, relv)
                        && #[trigger] to_before.contains_key(k)) by {
                        if strict_prefix(k, relv) && to_before.contains_key(k) {
                            assert(t0.contains_key(k));
                            assert(k != relv);
                            assert(path_prefix(k, relv));
                        }
                    }
                    assert(to.m() == t0);
                }
            }
            let ghost to_mid = to.m();
            let ghost bk_mid = backup.m();
            match link_path(to, backup, rel, from_abs, &mut acts) {
                Ok(()) => {},
                Err(e) => {
                    proof {
                        if conflict_free(fm, t0) {
                            assert(false);
                        }
                        if synced(fm, t0, fav) {
                            lemma_synced_is_conflict_free(fm, t0, fav);
                            assert(false);
                        }
                        if forall|k2: Seq<Seq<char>>| !(#[trigger] b0.contains_key(k2)) {
                            let bad = choose|bad: Seq<Seq<char>>|
                                #[trigger] backup.m().contains_key(bad)
                                && (path_prefix(bad, relv) || path_prefix(relv, bad));
                            // Nothing was added by the failing call.
                            assert(backup.m() == bk_mid);
                            // The key in the way came out of `to` originally.
                            let in_head = bk_before.contains_key(bad);
                            if in_head {
                                assert(t0.contains_key(bad));
                            } else {
                                assert(strict_prefix(bad, relv)
                                    && to_before.contains_key(bad)
                                    && !to_mid.contains_key(bad));
                                if !(t0.contains_key(bad) && to_before[bad] == t0[bad]) {
                                    let j = choose|j: int| 0 <= j < i
                                        && views_of(from.entries@[j].path@) == bad
                                        && !(from.entries@[j].node is EmptyDir);
                                    assert(!path_prefix(
                                        views_of(from.entries@[j].path@),
                                        relv,
                                    ));
                                    assert(false);
                                }
                                assert(t0.contains_key(bad));
                            }
                            if to_mid.contains_key(relv) && !(to_mid[relv] is Link) {
                                // A file or empty directory sits at the entry path.
                                assert(to_before.contains_key(relv)
                                    && to_before[relv] == to_mid[relv]);
                                assert(t0.contains_key(relv)
                                    && t0[relv] == to_mid[relv]);
                                if bad != relv {
                                    assert(!path_prefix(bad, relv)
                                        && !path_prefix(relv, bad));
                                }
                                assert(bad == relv);
                                if in_head {
                                    assert(!to_before.contains_key(relv)
                                        || to_before[relv] is Link);
                                    assert(false);
                                } else {
                                    assert(strict_prefix(relv, relv));
                                    assert(false);
                                }
                            } else {
                                // A directory with content sits at the entry path.
                                let d = choose|d: Seq<Seq<char>>|
                                    #[trigger] to_mid.contains_key(d)
                                    && strict_prefix(relv, d);
                                assert(to_before.contains_key(d)
                                    && to_before[d] == to_mid[d]);
                                if !(t0.contains_key(d) && to_before[d] == t0[d]) {
                                    let j = choose|j: int| 0 <= j < i
                                        && views_of(from.entries@[j].path@) == d
                                        && !(from.entries@[j].node is EmptyDir);
                                    assert(!path_prefix(relv,
                                        views_of(from.entries@[j].path@)));
                                    assert(false);
                                }
                                assert(t0.contains_key(d));
                                if path_prefix(bad, relv) {
                                    lemma_prefix_trans(bad, relv, d);
                                    assert(bad != d);
                                    assert(false);
                                } else {
                                    assert(path_prefix(relv, bad));
                                    if bad == relv {
                                        assert(false);
                                    }
                                    if relv.len() == bad.len() {
                                        assert(relv =~= bad);
                                        assert(false);
                                    }
                                    assert(strict_prefix(relv, bad));
                                    if in_head {
                                        let j = choose|j: int| 0 <= j < i
                                            && !(from.entries@[j].node is EmptyDir)
                                            && (path_prefix(bad,
                                                    views_of(from.entries@[j].path@))
                                                || path_prefix(
                                                    views_of(from.entries@[j].path@),
                                                    bad));
                                        let pj = views_of(from.entries@[j].path@);
                                        if path_prefix(bad, pj) {
                                            lemma_prefix_trans(relv, bad, pj);
                                            assert(false);
                                        } else {
                                            if pj.len() <= relv.len() {
                                                lemma_prefix_total(pj, relv, bad);
                                            } else {
                                                lemma_prefix_total(relv, pj, bad);
                                            }
                                            assert(false);
                                        }
                                    } else {
                                        assert(strict_prefix(bad, relv));
                                        assert(false);
                                    }
                                }
                            }
                            assert(false);
                        }
                    }
                    return (acts, Err(e));
                },
            }
            proof {
                if synced(fm, t0, fav) {
                    assert(to.m() == t0);
                    assert(backup.m() == b0);
                    assert(acts_view(acts@) == acts_view(acts_before));
                    assert(acts_view(acts@).len() == acts@.len());
                    assert(acts_view(acts_before).len() == acts_before.len());
                    assert(acts@.len() == 0);
                }
                // Earlier links survive: their paths are unrelated to `rel`.
                assert forall|j: int| 0 <= j < i + 1 && !(from.entries@[j].node is EmptyDir)
                    implies to.m().contains_key(views_of(from.entries@[j].path@))
                        && to.m()[views_of(from.entries@[j].path@)]
                            == NodeV::Link(fav + views_of(from.entries@[j].path@)) by {
                    let pj = views_of(from.entries@[j].path@);
                    if j < i as int {
                        assert(!path_prefix(relv, pj));
                    }
                }
            }
        }
        i += 1;
    }
    proof {
        lemma_tree_map_contains(from.entries@);
        assert forall|e: Seq<Seq<char>>| source_entry(fm, e)
            implies to.m().contains_key(e) && to.m()[e] == NodeV::Link(fav + e) by {
            let j = choose|j: int|
                0 <= j < from.entries@.len() && views_of(from.entries@[j].path@) == e;
            lemma_tree_map_index(from.entries@, j);
            assert(!(from.entries@[j].node is EmptyDir));
        }
    }
    (acts, Ok(()))
}


/// `p` names a directory in the modelled filesystem: the root, an empty
/// directory leaf, or an implicit directory (a proper prefix of some leaf).
pub open spec fn is_dir_in(m: Map<Seq<Seq<char>>, NodeV>, p: Seq<Seq<char>>) -> bool {
    ||| p.len() == 0
    ||| (m.contains_key(p) && m[p] is EmptyDir)
    ||| exists|k: Seq<Seq<char>>| #[trigger] m.contains_key(k) && strict_prefix(p, k)
}

/// Check that a required directory exists in the modelled filesystem and
/// return its canonical form; model paths are already canonical component
/// lists, so canonicalization returns the path unchanged.
pub fn resolve_directory(fs: &Tree, dir_path: &Vec<String>, name: &str) -> (r: Result<
    Vec<String>,
    LinkError,
>)
    requires
        fs.wf(),
    ensures
        match r {
            Ok(p) => is_dir_in(fs.m(), views_of(dir_path@))
                && views_of(p@) == views_of(dir_path@),
            Err(e) => !is_dir_in(fs.m(), views_of(dir_path@)) && (e matches
                LinkError::MissingDir { name: n, path: pp }
                && n@ == name@ && views_of(pp@) == views_of(dir_path@)),
        },
{
    let mut ok: bool = dir_path.len() == 0;
    if !ok {
        if let Some(i) = fs.find(dir_path) {
            ok = matches!(&fs.entries[i].node, FsNode::EmptyDir);
            proof {
                lemma_tree_map_index(fs.entries@, i as int);
            }
        }
    }
    if !ok {
        ok = fs.has_strict_descendant(dir_path);
    }
    if ok {
        Ok(clone_path(dir_path))
    } else {
        Err(LinkError::MissingDir { name: name.to_owned(), path: clone_path(dir_path) })
    }
}

/// What a raw configuration string expands to against a fully resolved
/// environment: the expanded text, or nothing when a referenced name is
/// absent.
pub open spec fn first_expansion(
    raw: Seq<char>,
    env: Map<Seq<char>, Seq<char>>,
    home: Option<Seq<char>>,
) -> Option<Seq<char>> {
    match expand_first(raw, env, Set::empty(), home) {
        SpecExpansion::Expanded { text, deferred } => Some(text),
        SpecExpansion::Missing { var } => None,
    }
}

/// The three directories the synchronizer works with, as raw configuration
/// strings until [`LinkConfig::resolve_env`] expands them.
#[derive(Debug, PartialEq, Clone)]
pub struct LinkConfig {
    pub from_dir: String,
    pub to_dir: String,
    pub backup_dir: String,
}

impl LinkConfig {
    /// Expand environment references and the home shorthand in each of the
    /// three directory fields against a fully resolved environment, failing
    /// on the first reference to an absent name.
    pub fn resolve_env(&mut self, env: &Vec<EnvEntry>, home: &Option<String>) -> (r: Result<
        (),
        EnvError,
    >)
        requires
            env_distinct(env@),
        ensures
            ({
                let m = env_map(env@);
                let hv = home_view(*home);
                match r {
                    Ok(()) => {
                        &&& first_expansion(old(self).from_dir@, m, hv)
                            == Some(final(self).from_dir@)
                        &&& first_expansion(old(self).to_dir@, m, hv)
                            == Some(final(self).to_dir@)
                        &&& first_expansion(old(self).backup_dir@, m, hv)
                            == Some(final(self).backup_dir@)
                    },
                    Err(e) => e matches EnvError::EnvLookup { var } && {
                        ||| expand_first(old(self).from_dir@, m, Set::empty(), hv)
                            == (SpecExpansion::Missing { var: var@ })
                        ||| (first_expansion(old(self).from_dir@, m, hv) is Some
                            && expand_first(old(self).to_dir@, m, Set::empty(), hv)
                                == (SpecExpansion::Missing { var: var@ }))
                        ||| (first_expansion(old(self).from_dir@, m, hv) is Some
                            && first_expansion(old(self).to_dir@, m, hv) is Some
                            && expand_first(old(self).backup_dir@, m, Set::empty(), hv)
                                == (SpecExpansion::Missing { var: var@ }))
                    },
                }
            }),
    {
        let pending: Vec<String> = Vec::new();
        proof {
            assert(crate::env::key_set(pending@) =~= Set::<Seq<char>>::empty());
        }
        match crate::env::expand(&self.from_dir, env, &pending, true, home) {
            Ok((text, _deferred)) => {
                self.from_dir = text;
            },
            Err(var) => {
                return Err(EnvError::EnvLookup { var });
            },
        }
        match crate::env::expand(&self.to_dir, env, &pending, true, home) {
            Ok((text, _deferred)) => {
                self.to_dir = text;
            },
            Err(var) => {
                return Err(EnvError::EnvLookup { var });
            },
        }
        match crate::env::expand(&self.backup_dir, env, &pending, true, home) {
            Ok((text, _deferred)) => {
                self.backup_dir = text;
            },
            Err(var) => {
                return Err(EnvError::EnvLookup { var });
            },
        }
        Ok(())
    }
}

} // verus!
