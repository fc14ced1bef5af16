//! Branches, HEAD and checkout.
use vstd::prelude::*;
use crate::bytes::{bytes_eq, copy_bytes, to_bytes};
use crate::error::GitError;
use crate::index::{Index, IndexV};
use crate::object::Object;
use crate::pathmap::{lemma_map_of_domain, lemma_map_of_value, map_of, FileV, PathMap};
use crate::repo::{commit_at, commit_tree_at, Head, HeadV, Objects, Repository};
use crate::sync::{blobs_present, sync_workdir, synced};

verus! {

/// The entries of the tree HEAD's commit records; none when HEAD does not
/// resolve to a commit with a tree.
pub open spec fn head_tree(r: Repository) -> Map<Seq<u8>, FileV> {
    match r.head_id() {
        Some(h) => match commit_tree_at(r.objects@, h) {
            Some(t) => map_of(t),
            None => Map::empty(),
        },
        None => Map::empty(),
    }
}

/// Where a checkout of `rev` leads: HEAD itself for `HEAD`, else the branch
/// `rev`, else the commit `rev`.
pub open spec fn checkout_target(r: Repository, rev: Seq<u8>) -> Option<(HeadV, Seq<u8>)> {
    if rev == head_name() {
        match r.head_id() {
            Some(id) => Some((r.head@, id)),
            None => None,
        }
    } else if r.branches@.contains_key(rev) {
        Some((HeadV::Branch(rev), r.branches@[rev].1))
    } else if commit_at(r.objects@, rev) is Some {
        Some((HeadV::Detached(rev), rev))
    } else {
        None
    }
}

/// The tree of the commit `id`, checked to be usable: every blob it names is stored.
pub open spec fn usable_tree(objs: Objects, id: Seq<u8>) -> Option<Seq<crate::pathmap::EntryV>> {
    match commit_tree_at(objs, id) {
        Some(t) => if blobs_present(objs, map_of(t)) {
            Some(t)
        } else {
            None
        },
        None => None,
    }
}

/// The name `HEAD`.
pub open spec fn head_name() -> Seq<u8> {
    seq![72u8, 69u8, 65u8, 68u8]
}

/// The commit a revision names: `HEAD`, a branch, or the id of a stored commit.
pub open spec fn resolve_spec(r: Repository, rev: Seq<u8>) -> Option<Seq<u8>> {
    if rev == head_name() {
        r.head_id()
    } else if r.branches@.contains_key(rev) {
        Some(r.branches@[rev].1)
    } else if commit_at(r.objects@, rev) is Some {
        Some(rev)
    } else {
        None
    }
}

impl Repository {
    /// The commit id that `rev` names, if any.
    pub fn resolve(&self, rev: &[u8]) -> (r: Option<Vec<u8>>)
        requires
            self.wf(),
        ensures
            r is None <==> resolve_spec(*self, rev@) is None,
            r matches Some(id) ==> resolve_spec(*self, rev@) == Some(id@),
    {
        let head: [u8; 4] = [72u8, 69u8, 65u8, 68u8];
        assert(head@ =~= head_name());
        if bytes_eq(rev, head.as_slice()) {
            return self.head_commit();
        }
        match self.branches.find(rev) {
            Some(i) => Some(copy_bytes(&self.branches.entries[i].data)),
            None => match self.objects.get(rev) {
                Some(Object::Commit(_)) => Some(to_bytes(rev)),
                _ => None,
            },
        }
    }

    /// The tree of the commit stored under `id`.
    pub fn commit_tree(&self, id: &[u8]) -> (r: Result<&PathMap, GitError>)
        requires
            self.wf(),
        ensures
            r is Ok <==> commit_tree_at(self.objects@, id@) is Some,
            r matches Ok(t) ==> t.wf() && Some(t.seq()) == commit_tree_at(self.objects@, id@),
            r is Err ==> (r == Err::<&PathMap, GitError>(GitError::NotFound) <==> commit_at(
                self.objects@,
                id@,
            ) is None),
            r is Err ==> r == Err::<&PathMap, GitError>(GitError::NotFound) || r == Err::<
                &PathMap,
                GitError,
            >(GitError::Corrupt),
    {
        match self.objects.get(id) {
            Some(Object::Commit(c)) => match self.objects.get(c.tree.as_slice()) {
                Some(Object::Tree(t)) => {
                    assert(self.objects@.contains_key(c.tree@));
                    Ok(t)
                },
                _ => Err(GitError::Corrupt),
            },
            _ => Err(GitError::NotFound),
        }
    }

    /// Whether every entry of `t` names a stored blob.
    pub fn blobs_stored(&self, t: &PathMap) -> (r: bool)
        requires
            self.wf(),
            t.wf(),
        ensures
            r == blobs_present(self.objects@, t@),
    {
        let mut i: usize = 0;
        while i < t.entries.len()
            invariant
                self.wf(),
                t.wf(),
                i <= t.entries@.len(),
                forall|k: int|
                    0 <= k < i ==> self.objects@.contains_key(#[trigger] t.seq()[k].2) && self.objects@[t.seq()[k].2] is Blob,
            decreases t.entries@.len() - i,
        {
            let ok = match self.objects.get(t.entries[i].data.as_slice()) {
                Some(Object::Blob(_)) => true,
                _ => false,
            };
            if !ok {
                proof {
                    lemma_map_of_value(t.seq(), i as int);
                }
                return false;
            }
            i = i + 1;
        }
        proof {
            assert forall|p: Seq<u8>| #[trigger] t@.contains_key(p) implies self.objects@.contains_key(t@[p].1)
                && self.objects@[t@[p].1] is Blob by {
                lemma_map_of_domain(t.seq(), p);
                let k = choose|k: int| 0 <= k < t.seq().len() && #[trigger] t.seq()[k].0 == p;
                lemma_map_of_value(t.seq(), k);
            }
        }
        true
    }

    /// The tree HEAD's commit records, or an empty one.
    fn head_tree_copy(&self) -> (r: PathMap)
        requires
            self.wf(),
        ensures
            r.wf(),
            r@ == head_tree(*self),
    {
        match self.head_commit() {
            Some(h) => match self.commit_tree(h.as_slice()) {
                Ok(t) => t.copy(),
                Err(_) => PathMap::new(),
            },
            None => PathMap::new(),
        }
    }

    /// Creates the branch `name` at HEAD's commit.
    pub fn create_branch(&mut self, name: &[u8]) -> (r: Result<(), GitError>)
        requires
            old(self).wf(),
        ensures
            final(self).wf(),
            create_branch_spec(*old(self), *final(self), name@, r),
    {
        let id = match self.head_commit() {
            Some(id) => id,
            None => {
                return Err(GitError::NotFound);
            },
        };
        if self.branches.find(name).is_some() {
            return Err(GitError::AlreadyExists);
        }
        self.branches.insert(to_bytes(name), 0, id);
        Ok(())
    }

    /// Moves the branch `name` from the commit `expected` to the commit `new`,
    /// refusing with `Conflict` when it no longer points at `expected`.
    pub fn update_branch(&mut self, name: &[u8], expected: &[u8], new: &[u8]) -> (r: Result<(), GitError>)
        requires
            old(self).wf(),
        ensures
            final(self).wf(),
            final(self).objects@ == old(self).objects@,
            final(self).index@ == old(self).index@,
            final(self).workdir@ == old(self).workdir@,
            final(self).head@ == old(self).head@,
            !old(self).branches@.contains_key(name@) ==> r == Err::<(), GitError>(GitError::NotFound)
                && final(self).branches@ == old(self).branches@,
            old(self).branches@.contains_key(name@) && old(self).branches@[name@].1 != expected@ ==> r
                == Err::<(), GitError>(GitError::Conflict) && final(self).branches@ == old(self).branches@,
            old(self).branches@.contains_key(name@) && old(self).branches@[name@].1 == expected@ ==> r is Ok
                && final(self).branches@ == old(self).branches@.insert(name@, (0, new@)),
    {
        match self.branches.find(name) {
            None => Err(GitError::NotFound),
            Some(i) => {
                if !bytes_eq(self.branches.entries[i].data.as_slice(), expected) {
                    return Err(GitError::Conflict);
                }
                self.branches.insert(to_bytes(name), 0, to_bytes(new));
                Ok(())
            },
        }
    }

    /// Deletes the branch `name`, which HEAD must not be on.
    pub fn delete_branch(&mut self, name: &[u8]) -> (r: Result<(), GitError>)
        requires
            old(self).wf(),
        ensures
            final(self).wf(),
            delete_branch_spec(*old(self), *final(self), name@, r),
    {
        let current = match &self.head {
            Head::Branch(b) => bytes_eq(b.as_slice(), name),
            Head::Detached(_) => false,
        };
        if current {
            return Err(GitError::InvalidState);
        }
        if self.branches.find(name).is_none() {
            return Err(GitError::NotFound);
        }
        self.branches.remove(name);
        Ok(())
    }

    /// The branches in name order, each with whether HEAD is on it.
    pub fn list_branches(&self) -> (r: Vec<(Vec<u8>, bool)>)
        requires
            self.wf(),
        ensures
            r@.len() == self.branches.seq().len(),
            forall|i: int|
                0 <= i < r@.len() ==> (#[trigger] r@[i]).0@ == self.branches.seq()[i].0 && r@[i].1 == (self.head@
                    == HeadV::Branch(self.branches.seq()[i].0)),
    {
        let mut r: Vec<(Vec<u8>, bool)> = Vec::new();
        let mut i: usize = 0;
        while i < self.branches.entries.len()
            invariant
                i <= self.branches.entries@.len(),
                r@.len() == i,
                forall|k: int|
                    0 <= k < i ==> (#[trigger] r@[k]).0@ == self.branches.seq()[k].0 && r@[k].1 == (self.head@
                        == HeadV::Branch(self.branches.seq()[k].0)),
            decreases self.branches.entries@.len() - i,
        {
            let name = &self.branches.entries[i].path;
            let current = match &self.head {
                Head::Branch(b) => bytes_eq(b.as_slice(), name.as_slice()),
                Head::Detached(_) => false,
            };
            r.push((copy_bytes(name), current));
            i = i + 1;
        }
        r
    }

    /// Moves to the branch `rev` (HEAD attached) or to the commit `rev` (HEAD
    /// detached), and makes the index and the working directory match its tree.
    pub fn checkout(&mut self, rev: &[u8]) -> (r: Result<(), GitError>)
        requires
            old(self).wf(),
        ensures
            final(self).wf(),
            checkout_spec(*old(self), *final(self), rev@, r),
    {
        let head_word: [u8; 4] = [72u8, 69u8, 65u8, 68u8];
        assert(head_word@ =~= head_name());
        let (head, id) = if bytes_eq(rev, head_word.as_slice()) {
            match self.head_commit() {
                Some(id) => (
                    match &self.head {
                        Head::Branch(b) => Head::Branch(copy_bytes(b)),
                        Head::Detached(d) => Head::Detached(copy_bytes(d)),
                    },
                    id,
                ),
                None => {
                    return Err(GitError::NotFound);
                },
            }
        } else {
            match self.branches.find(rev) {
            Some(i) => (Head::Branch(to_bytes(rev)), copy_bytes(&self.branches.entries[i].data)),
            None => match self.objects.get(rev) {
                Some(Object::Commit(_)) => (Head::Detached(to_bytes(rev)), to_bytes(rev)),
                _ => {
                    return Err(GitError::NotFound);
                },
            },
            }
        };
        let to = match self.commit_tree(id.as_slice()) {
            Ok(t) => t.copy(),
            Err(_) => {
                return Err(GitError::Corrupt);
            },
        };
        if !self.blobs_stored(&to) {
            return Err(GitError::Corrupt);
        }
        let from = self.head_tree_copy();
        sync_workdir(&mut self.workdir, &self.objects, &from, &to, true);
        self.index = Index::from_entries(to);
        self.head = head;
        Ok(())
    }
}

pub open spec fn create_branch_spec(before: Repository, after: Repository, name: Seq<u8>, r: Result<(), GitError>) -> bool {
    &&& after.objects@ == before.objects@
    &&& after.index@ == before.index@
    &&& after.workdir@ == before.workdir@
    &&& after.head@ == before.head@
    &&& match before.head_id() {
        None => r == Err::<(), GitError>(GitError::NotFound) && after.branches@ == before.branches@,
        Some(id) => if before.branches@.contains_key(name) {
            r == Err::<(), GitError>(GitError::AlreadyExists) && after.branches@ == before.branches@
        } else {
            r is Ok && after.branches@ == before.branches@.insert(name, (0, id))
        },
    }
}

pub open spec fn delete_branch_spec(before: Repository, after: Repository, name: Seq<u8>, r: Result<(), GitError>) -> bool {
    &&& after.objects@ == before.objects@
    &&& after.index@ == before.index@
    &&& after.workdir@ == before.workdir@
    &&& after.head@ == before.head@
    &&& if before.head@ == HeadV::Branch(name) {
        r == Err::<(), GitError>(GitError::InvalidState) && after.branches@ == before.branches@
    } else if !before.branches@.contains_key(name) {
        r == Err::<(), GitError>(GitError::NotFound) && after.branches@ == before.branches@
    } else {
        r is Ok && after.branches@ == before.branches@.remove(name)
    }
}

pub open spec fn checkout_spec(before: Repository, after: Repository, rev: Seq<u8>, r: Result<(), GitError>) -> bool {
    &&& after.objects@ == before.objects@
    &&& after.branches@ == before.branches@
    &&& match checkout_target(before, rev) {
        None => r == Err::<(), GitError>(GitError::NotFound) && after.index@ == before.index@
            && after.workdir@ == before.workdir@ && after.head@ == before.head@,
        Some((h, id)) => match usable_tree(before.objects@, id) {
            None => r == Err::<(), GitError>(GitError::Corrupt) && after.index@ == before.index@
                && after.workdir@ == before.workdir@ && after.head@ == before.head@,
            Some(t) => {
                &&& r is Ok
                &&& after.head@ == h
                &&& after.index@ == IndexV::clean(map_of(t))
                &&& after.workdir@ == synced(before.workdir@, head_tree(before), map_of(t), before.objects@, true)
            },
        },
    }
}

} // verus!
