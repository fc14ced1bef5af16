//! Revert, reset and restore.
use vstd::prelude::*;
use crate::bytes::copy_bytes;
use crate::error::GitError;
use crate::store::store_both;
use crate::index::{stage_spec, unstage_spec, Index, IndexV};
use crate::merge::{agrees_where_changed, agrees_where_changed_exec, unchanged};
use crate::object::{ids_view, object_id, CommitV, Object, ObjectV, Signature};
use crate::pathmap::{entries_of, lemma_entries_of, map_of, FileV, PathMap};
use crate::repo::{commit_at, commit_tree_at, grows, moved_branches, moved_head, Objects, Repository};
use crate::sync::{workdir_clean, workdir_clean_exec, applied, apply_entries, blob_at, blob_content, blobs_present, lemma_synced_grows, sync_workdir, synced};

verus! {

/// The first line of a commit message: everything before the first newline.
pub open spec fn first_line(m: Seq<u8>) -> Seq<u8>
    decreases m.len(),
{
    if m.len() == 0 {
        Seq::empty()
    } else if m[0] == 10u8 {
        Seq::empty()
    } else {
        seq![m[0]] + first_line(m.drop_first())
    }
}

/// The message of the commit that reverts one whose summary is `s`: `Revert "s"`.
pub open spec fn revert_message(s: Seq<u8>) -> Seq<u8> {
    seq![82u8, 101u8, 118u8, 101u8, 114u8, 116u8, 32u8, 34u8] + s + seq![34u8]
}

/// The first line of `m`.
pub fn summary(m: &[u8]) -> (r: Vec<u8>)
    ensures
        r@ == first_line(m@),
{
    let mut r: Vec<u8> = Vec::new();
    let mut i: usize = 0;
    assert(m@.skip(0) =~= m@);
    while i < m.len() && m[i] != 10u8
        invariant
            i <= m@.len(),
            r@ == m@.subrange(0, i as int),
            first_line(m@) == r@ + first_line(m@.skip(i as int)),
        decreases m@.len() - i,
    {
        let ghost before = r@;
        r.push(m[i]);
        proof {
            assert(m@.skip(i as int)[0] == m@[i as int]);
            assert(m@.skip(i as int).drop_first() =~= m@.skip(i + 1));
            assert(m@.subrange(0, i + 1) =~= m@.subrange(0, i as int).push(m@[i as int]));
            assert(r@ + first_line(m@.skip(i + 1)) =~= before + first_line(m@.skip(i as int)));
        }
        i = i + 1;
    }
    proof {
        if i < m@.len() {
            assert(m@.skip(i as int)[0] == 10u8);
        }
        assert(r@ + first_line(m@.skip(i as int)) =~= r@);
    }
    r
}

/// `Revert "s"` for the summary `s`.
pub fn revert_message_bytes(s: &[u8]) -> (r: Vec<u8>)
    ensures
        r@ == revert_message(s@),
{
    let mut r: Vec<u8> = Vec::new();
    r.push(82u8);
    r.push(101u8);
    r.push(118u8);
    r.push(101u8);
    r.push(114u8);
    r.push(116u8);
    r.push(32u8);
    r.push(34u8);
    let mut i: usize = 0;
    while i < s.len()
        invariant
            i <= s@.len(),
            r@ == seq![82u8, 101u8, 118u8, 101u8, 114u8, 116u8, 32u8, 34u8] + s@.subrange(0, i as int),
        decreases s@.len() - i,
    {
        r.push(s[i]);
        assert(s@.subrange(0, i + 1) =~= s@.subrange(0, i as int).push(s@[i as int]));
        i = i + 1;
    }
    r.push(34u8);
    assert(s@.subrange(0, i as int) =~= s@);
    assert(r@ =~= revert_message(s@));
    r
}

pub open spec fn revert_spec(
    before: Repository,
    after: Repository,
    target: Seq<u8>,
    author: (Seq<u8>, u64),
    r: Result<Vec<u8>, GitError>,
) -> bool {
    let objs = before.objects@;
    match commit_at(objs, target) {
        None => r == Err::<Vec<u8>, GitError>(GitError::NotFound) && unchanged(before, after),
        Some(c) => if c.parents.len() != 1 {
            r == Err::<Vec<u8>, GitError>(GitError::InvalidState) && unchanged(before, after)
        } else if before.head_id() is None {
            r == Err::<Vec<u8>, GitError>(GitError::NotFound) && unchanged(before, after)
        } else {
            match (commit_tree_at(objs, target), commit_tree_at(objs, c.parents[0])) {
                (Some(t), Some(p)) => revert_outcome_spec(
                    before,
                    after,
                    before.head_id()->0,
                    map_of(t),
                    map_of(p),
                    revert_message(first_line(c.message)),
                    author,
                    r,
                ),
                _ => r == Err::<Vec<u8>, GitError>(GitError::Corrupt) && unchanged(before, after),
            }
        },
    }
}

/// What a revert does once the reverted commit's tree `t` and its parent's
/// tree `p` are known: the change from `t` to `p` is applied to the index and
/// the working directory and committed on top of `head`.
pub open spec fn revert_outcome_spec(
    before: Repository,
    after: Repository,
    head: Seq<u8>,
    t: Map<Seq<u8>, FileV>,
    p: Map<Seq<u8>, FileV>,
    message: Seq<u8>,
    author: (Seq<u8>, u64),
    r: Result<Vec<u8>, GitError>,
) -> bool {
    let objs = before.objects@;
    if before.index@.has_conflicts() || !agrees_where_changed(before.index@.entries, t, p) || !workdir_clean(
        before.workdir@,
        objs,
        t,
        p,
        false,
    ) {
        r == Err::<Vec<u8>, GitError>(GitError::Conflict) && unchanged(before, after)
    } else if !blobs_present(objs, p) {
        r == Err::<Vec<u8>, GitError>(GitError::Corrupt) && unchanged(before, after)
    } else {
        let n = applied(before.index@.entries, t, p, false);
        let tree = ObjectV::Tree(entries_of(n));
        let c = CommitV { tree: object_id(tree), parents: seq![head], author, committer: author, message };
        &&& (r is Ok <==> store_both(objs, tree, ObjectV::Commit(c)) is None)
        &&& (r matches Err(e) ==> store_both(objs, tree, ObjectV::Commit(c)) == Some(e))
        &&& match r {
            Ok(id) => {
                &&& id@ == object_id(ObjectV::Commit(c))
                &&& grows(objs, after.objects@)
                &&& after.objects@.contains_key(object_id(tree))
                &&& after.objects@[object_id(tree)] == tree
                &&& after.objects@.contains_key(id@)
                &&& after.objects@[id@] == ObjectV::Commit(c)
                &&& after.index@ == IndexV::clean(n)
                &&& after.workdir@ == synced(before.workdir@, t, p, objs, false)
                &&& after.branches@ == moved_branches(before.head@, before.branches@, id@)
                &&& after.head@ == moved_head(before.head@, id@)
            },
            Err(e) => (e == GitError::Corrupt || e == GitError::Digest) && before.same_state(&after),
        }
    }
}

#[derive(Clone, Copy, Debug, PartialEq, Eq, Structural)]
pub enum ResetMode {
    /// Move HEAD's target only.
    Soft,
    /// Also reset the index.
    Mixed,
    /// Also reset the working directory.
    Hard,
}

pub open spec fn ascii_lower(c: u8) -> u8 {
    if 65 <= c <= 90 {
        (c + 32) as u8
    } else {
        c
    }
}

/// `s` spells the lower-case ASCII `word`, ignoring ASCII case.
pub open spec fn spells(s: Seq<u8>, word: Seq<u8>) -> bool {
    s.len() == word.len() && forall|i: int| 0 <= i < s.len() ==> ascii_lower(#[trigger] s[i]) == word[i]
}

pub open spec fn soft_word() -> Seq<u8> {
    seq![115u8, 111u8, 102u8, 116u8]
}

pub open spec fn hard_word() -> Seq<u8> {
    seq![104u8, 97u8, 114u8, 100u8]
}

/// The reset mode a name asks for: `soft` and `hard` in any ASCII case, and
/// `Mixed` for anything else.
pub open spec fn reset_mode_of(s: Seq<u8>) -> ResetMode {
    if spells(s, soft_word()) {
        ResetMode::Soft
    } else if spells(s, hard_word()) {
        ResetMode::Hard
    } else {
        ResetMode::Mixed
    }
}

fn spells_exec(s: &[u8], word: &[u8]) -> (r: bool)
    ensures
        r == spells(s@, word@),
{
    if s.len() != word.len() {
        return false;
    }
    let mut i: usize = 0;
    while i < s.len()
        invariant
            s@.len() == word@.len(),
            i <= s@.len(),
            forall|k: int| 0 <= k < i ==> ascii_lower(#[trigger] s@[k]) == word@[k],
        decreases s@.len() - i,
    {
        let c = s[i];
        let lower = if 65 <= c && c <= 90 {
            c + 32
        } else {
            c
        };
        if lower != word[i] {
            return false;
        }
        i = i + 1;
    }
    true
}

/// The reset mode named by `s`.
pub fn parse_reset_mode(s: &[u8]) -> (r: ResetMode)
    ensures
        r == reset_mode_of(s@),
{
    let soft: [u8; 4] = [115u8, 111u8, 102u8, 116u8];
    let hard: [u8; 4] = [104u8, 97u8, 114u8, 100u8];
    assert(soft@ =~= soft_word());
    assert(hard@ =~= hard_word());
    if spells_exec(s, soft.as_slice()) {
        ResetMode::Soft
    } else if spells_exec(s, hard.as_slice()) {
        ResetMode::Hard
    } else {
        ResetMode::Mixed
    }
}

pub open spec fn scope_view(scope: Option<&[u8]>) -> Option<Seq<u8>> {
    match scope {
        Some(s) => Some(s@),
        None => None,
    }
}

/// The index after resetting it to the tree `t`, over all paths or one.
pub open spec fn reset_index(idx: IndexV, t: Map<Seq<u8>, FileV>, scope: Option<Seq<u8>>) -> IndexV {
    match scope {
        None => IndexV::clean(t),
        Some(p) => if t.contains_key(p) {
            stage_spec(idx, p, t[p])
        } else {
            unstage_spec(idx, p)
        },
    }
}

/// The working directory after resetting it to the tree `t`: over all paths,
/// every file of `t` is written and every file listed in `staged` but not
/// in `t` is removed; over one path, only that path.
pub open spec fn reset_workdir(
    wd: Map<Seq<u8>, FileV>,
    staged: Map<Seq<u8>, FileV>,
    t: Map<Seq<u8>, FileV>,
    objs: Objects,
    scope: Option<Seq<u8>>,
) -> Map<Seq<u8>, FileV> {
    match scope {
        None => synced(wd, staged, t, objs, true),
        Some(p) => if t.contains_key(p) {
            wd.insert(p, (t[p].0, blob_at(objs, t[p].1)))
        } else {
            wd.remove(p)
        },
    }
}

pub open spec fn reset_spec(
    before: Repository,
    after: Repository,
    target: Seq<u8>,
    mode: ResetMode,
    scope: Option<Seq<u8>>,
    r: Result<(), GitError>,
) -> bool {
    let objs = before.objects@;
    match commit_at(objs, target) {
        None => r == Err::<(), GitError>(GitError::NotFound) && unchanged(before, after),
        Some(_) => match commit_tree_at(objs, target) {
            None => r == Err::<(), GitError>(GitError::Corrupt) && unchanged(before, after),
            Some(t) => if mode == ResetMode::Hard && !blobs_present(objs, map_of(t)) {
                r == Err::<(), GitError>(GitError::Corrupt) && unchanged(before, after)
            } else {
                &&& r is Ok
                &&& after.objects@ == objs
                &&& after.branches@ == moved_branches(before.head@, before.branches@, target)
                &&& after.head@ == moved_head(before.head@, target)
                &&& after.index@ == if mode == ResetMode::Soft {
                    before.index@
                } else {
                    reset_index(before.index@, map_of(t), scope)
                }
                &&& after.workdir@ == if mode == ResetMode::Hard {
                    reset_workdir(before.workdir@, before.index@.entries, map_of(t), objs, scope)
                } else {
                    before.workdir@
                }
            },
        },
    }
}

pub open spec fn restore_spec(before: Repository, after: Repository, path: Seq<u8>, r: Result<(), GitError>) -> bool {
    let objs = before.objects@;
    &&& after.objects@ == objs
    &&& after.branches@ == before.branches@
    &&& after.head@ == before.head@
    &&& match before.head_id() {
        None => r == Err::<(), GitError>(GitError::NotFound) && unchanged(before, after),
        Some(h) => match commit_tree_at(objs, h) {
            None => r == Err::<(), GitError>(GitError::Corrupt) && unchanged(before, after),
            Some(t) => if !blobs_present(objs, map_of(t)) {
                r == Err::<(), GitError>(GitError::Corrupt) && unchanged(before, after)
            } else {
                &&& r is Ok
                &&& after.index@ == reset_index(before.index@, map_of(t), Some(path))
                &&& after.workdir@ == reset_workdir(
                    before.workdir@,
                    before.index@.entries,
                    map_of(t),
                    objs,
                    Some(path),
                )
            },
        },
    }
}

impl Repository {
    /// Makes a commit on top of HEAD that undoes the commit `target`.
    pub fn revert(&mut self, target: &[u8], author: &Signature) -> (r: Result<Vec<u8>, GitError>)
        requires
            old(self).wf(),
        ensures
            final(self).wf(),
            revert_spec(*old(self), *final(self), target@, author@, r),
    {
        let (parent, message) = match self.objects.get(target) {
            Some(Object::Commit(c)) => {
                if c.parents.len() != 1 {
                    return Err(GitError::InvalidState);
                }
                assert(c.parents@[0]@ == ids_view(c.parents@)[0]);
                (copy_bytes(&c.parents[0]), revert_message_bytes(summary(c.message.as_slice()).as_slice()))
            },
            _ => {
                return Err(GitError::NotFound);
            },
        };
        let head = match self.head_commit() {
            Some(h) => h,
            None => {
                return Err(GitError::NotFound);
            },
        };
        let t = match self.commit_tree(target) {
            Ok(t) => t.copy(),
            Err(_) => {
                return Err(GitError::Corrupt);
            },
        };
        let p = match self.commit_tree(parent.as_slice()) {
            Ok(p) => p.copy(),
            Err(_) => {
                return Err(GitError::Corrupt);
            },
        };
        self.finish_revert(head, &t, &p, message, author)
    }

    #[verifier::rlimit(60)]
    fn finish_revert(
        &mut self,
        head: Vec<u8>,
        t: &PathMap,
        p: &PathMap,
        message: Vec<u8>,
        author: &Signature,
    ) -> (r: Result<Vec<u8>, GitError>)
        requires
            old(self).wf(),
            t.wf(),
            p.wf(),
        ensures
            final(self).wf(),
            revert_outcome_spec(*old(self), *final(self), head@, t@, p@, message@, author@, r),
    {
        if self.index.has_conflicts() || !agrees_where_changed_exec(&self.index.entries, t, p)
            || !workdir_clean_exec(&self.workdir, &self.objects, t, p, false) {
            return Err(GitError::Conflict);
        }
        if !self.blobs_stored(p) {
            return Err(GitError::Corrupt);
        }
        let mut n = self.index.entries.copy();
        apply_entries(&mut n, t, p, false);
        let ghost before = *self;
        proof {
            lemma_entries_of(n.seq());
        }
        let tree = match self.store(Object::Tree(n.copy())) {
            Ok(id) => id,
            Err(e) => {
                return Err(e);
            },
        };
        let mut parents: Vec<Vec<u8>> = Vec::new();
        parents.push(head);
        proof {
            assert(ids_view(parents@) =~= seq![head@]);
        }
        let id = match self.record_commit(tree, parents, message, author) {
            Ok(id) => id,
            Err(e) => {
                return Err(e);
            },
        };
        proof {
            lemma_entries_of(n.seq());
            lemma_synced_grows(before.workdir@, t@, p@, before.objects@, self.objects@, false);
        }
        sync_workdir(&mut self.workdir, &self.objects, t, p, false);
        self.index = Index::from_entries(n);
        Ok(id)
    }

    /// Resets the index (and, when hard, the working directory) to the tree
    /// `t`, over all paths or over `scope` alone.
    fn reset_to_tree(&mut self, t: &PathMap, hard: bool, scope: Option<&[u8]>)
        requires
            old(self).wf(),
            t.wf(),
            hard ==> blobs_present(old(self).objects@, t@),
        ensures
            final(self).wf(),
            final(self).objects@ == old(self).objects@,
            final(self).branches@ == old(self).branches@,
            final(self).head@ == old(self).head@,
            final(self).index@ == reset_index(old(self).index@, t@, scope_view(scope)),
            final(self).workdir@ == if hard {
                reset_workdir(old(self).workdir@, old(self).index@.entries, t@, old(self).objects@, scope_view(scope))
            } else {
                old(self).workdir@
            },
    {
        match scope {
            None => {
                if hard {
                    let staged = self.index.entries.copy();
                    sync_workdir(&mut self.workdir, &self.objects, &staged, t, true);
                }
                self.index = Index::from_entries(t.copy());
            },
            Some(path) => {
                match t.find(path) {
                    Some(i) => {
                        let e = &t.entries[i];
                        if hard {
                            assert(t@.contains_key(path@));
                            let content = blob_content(&self.objects, e.data.as_slice());
                            self.workdir.insert(copy_bytes(&e.path), e.mode, content);
                        }
                        self.index.stage(copy_bytes(&e.path), e.mode, copy_bytes(&e.data));
                    },
                    None => {
                        if hard {
                            self.workdir.remove(path);
                        }
                        self.index.unstage(path);
                    },
                }
            },
        }
    }

    /// Moves HEAD's target to the commit `target`; `Mixed` also resets the
    /// index to its tree and `Hard` the working directory too, over all paths
    /// or over `scope` alone.
    pub fn reset(&mut self, target: &[u8], mode: ResetMode, scope: Option<&[u8]>) -> (r: Result<(), GitError>)
        requires
            old(self).wf(),
        ensures
            final(self).wf(),
            reset_spec(*old(self), *final(self), target@, mode, scope_view(scope), r),
    {
        let t = match self.commit_tree(target) {
            Ok(t) => t.copy(),
            Err(e) => {
                return Err(e);
            },
        };
        if mode == ResetMode::Hard && !self.blobs_stored(&t) {
            return Err(GitError::Corrupt);
        }
        if mode != ResetMode::Soft {
            self.reset_to_tree(&t, mode == ResetMode::Hard, scope);
        }
        self.move_head(crate::bytes::to_bytes(target));
        Ok(())
    }

    /// Abandons an unfinished merge: the index and the working directory go
    /// back to HEAD's tree and every conflict stage is dropped.
    pub fn merge_abort(&mut self) -> (r: Result<(), GitError>)
        requires
            old(self).wf(),
        ensures
            final(self).wf(),
            match old(self).head_id() {
                None => r == Err::<(), GitError>(GitError::NotFound) && unchanged(*old(self), *final(self)),
                Some(h) => reset_spec(*old(self), *final(self), h, ResetMode::Hard, None, r),
            },
    {
        match self.head_commit() {
            None => Err(GitError::NotFound),
            Some(h) => self.reset(h.as_slice(), ResetMode::Hard, None),
        }
    }

    /// Brings `path` back to HEAD's tree in the index and the working
    /// directory, discarding local changes to it; HEAD stays.
    pub fn restore(&mut self, path: &[u8]) -> (r: Result<(), GitError>)
        requires
            old(self).wf(),
        ensures
            final(self).wf(),
            restore_spec(*old(self), *final(self), path@, r),
    {
        let head = match self.head_commit() {
            Some(h) => h,
            None => {
                return Err(GitError::NotFound);
            },
        };
        let t = match self.commit_tree(head.as_slice()) {
            Ok(t) => t.copy(),
            Err(_) => {
                return Err(GitError::Corrupt);
            },
        };
        if !self.blobs_stored(&t) {
            return Err(GitError::Corrupt);
        }
        self.reset_to_tree(&t, true, Some(path));
        Ok(())
    }
}

} // verus!
