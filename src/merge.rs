//! Three-way merge of trees, path by path.
use vstd::prelude::*;
use crate::bytes::{bytes_eq, copy_bytes};
use crate::index::{Index, IndexV};
use crate::pathmap::{lemma_map_of_domain, FileV, PathMap};
use crate::error::GitError;
use crate::store::store_both;
use crate::history::merge_base;
use crate::object::{ids_view, object_id, CommitV, Object, ObjectV, Signature};
use crate::pathmap::{entries_of, lemma_entries_of, map_of};
use crate::repo::{commit_tree_at, grows, moved_branches, moved_head, Objects, Repository};
use crate::sync::{at, blobs_present, workdir_clean, workdir_clean_exec, lemma_synced_grows, seen, sync_workdir, synced, touched};

verus! {

/// The outcome at one path: a version to keep (none meaning absent), or a clash.
pub enum Cell {
    Take(Option<FileV>),
    Clash,
}

/// The three-way rule at one path, given the base, ours and theirs versions:
/// a side that left the base alone yields to the other; equal changes agree;
/// different changes clash.
pub open spec fn merge_cell(b: Option<FileV>, o: Option<FileV>, t: Option<FileV>) -> Cell {
    if o == b {
        Cell::Take(t)
    } else if t == b || o == t {
        Cell::Take(o)
    } else {
        Cell::Clash
    }
}

pub open spec fn cell_at(
    b: Map<Seq<u8>, FileV>,
    o: Map<Seq<u8>, FileV>,
    t: Map<Seq<u8>, FileV>,
    p: Seq<u8>,
) -> Cell {
    merge_cell(at(b, p), at(o, p), at(t, p))
}

pub open spec fn cell_value(c: Cell) -> FileV {
    match c {
        Cell::Take(Some(f)) => f,
        _ => (0, Seq::empty()),
    }
}

/// The merged entries: every path whose outcome is a version to keep.
pub open spec fn merged_map(b: Map<Seq<u8>, FileV>, o: Map<Seq<u8>, FileV>, t: Map<Seq<u8>, FileV>) -> Map<
    Seq<u8>,
    FileV,
> {
    Map::new(
        |p: Seq<u8>| cell_at(b, o, t, p) matches Cell::Take(Some(_)),
        |p: Seq<u8>| cell_value(cell_at(b, o, t, p)),
    )
}

/// The entries of `x` at the paths that clash.
pub open spec fn clash_stage(
    x: Map<Seq<u8>, FileV>,
    b: Map<Seq<u8>, FileV>,
    o: Map<Seq<u8>, FileV>,
    t: Map<Seq<u8>, FileV>,
) -> Map<Seq<u8>, FileV> {
    Map::new(|p: Seq<u8>| cell_at(b, o, t, p) is Clash && x.contains_key(p), |p: Seq<u8>| x[p])
}

/// The index a three-way merge leaves: the merged entries at stage 0, and
/// the base, ours and theirs versions of each clashing path at stages 1 to 3.
pub open spec fn merge_index(b: Map<Seq<u8>, FileV>, o: Map<Seq<u8>, FileV>, t: Map<Seq<u8>, FileV>) -> IndexV {
    IndexV {
        entries: merged_map(b, o, t),
        base: clash_stage(b, b, o, t),
        ours: clash_stage(o, b, o, t),
        theirs: clash_stage(t, b, o, t),
    }
}

/// `out` holds the merge outcome of exactly the paths that `vis` admits.
pub open spec fn merged_upto(
    out: IndexV,
    b: Map<Seq<u8>, FileV>,
    o: Map<Seq<u8>, FileV>,
    t: Map<Seq<u8>, FileV>,
    vis: spec_fn(Seq<u8>) -> bool,
) -> bool {
    &&& forall|p: Seq<u8>| #[trigger] out.entries.contains_key(p) == (vis(p) && cell_at(b, o, t, p) matches Cell::Take(Some(_)))
    &&& forall|p: Seq<u8>| #[trigger] out.entries.contains_key(p) ==> out.entries[p] == cell_value(cell_at(b, o, t, p))
    &&& forall|p: Seq<u8>| #[trigger] out.base.contains_key(p) == (vis(p) && cell_at(b, o, t, p) is Clash && b.contains_key(p))
    &&& forall|p: Seq<u8>| #[trigger] out.base.contains_key(p) ==> out.base[p] == b[p]
    &&& forall|p: Seq<u8>| #[trigger] out.ours.contains_key(p) == (vis(p) && cell_at(b, o, t, p) is Clash && o.contains_key(p))
    &&& forall|p: Seq<u8>| #[trigger] out.ours.contains_key(p) ==> out.ours[p] == o[p]
    &&& forall|p: Seq<u8>| #[trigger] out.theirs.contains_key(p) == (vis(p) && cell_at(b, o, t, p) is Clash && t.contains_key(p))
    &&& forall|p: Seq<u8>| #[trigger] out.theirs.contains_key(p) ==> out.theirs[p] == t[p]
}

pub open spec fn file_view(f: Option<(u32, Vec<u8>)>) -> Option<FileV> {
    match f {
        Some((m, d)) => Some((m, d@)),
        None => None,
    }
}

/// The entry of `m` at `p`, copied.
pub fn file_at(m: &PathMap, p: &[u8]) -> (r: Option<(u32, Vec<u8>)>)
    requires
        m.wf(),
    ensures
        file_view(r) == at(m@, p@),
{
    match m.find(p) {
        Some(i) => Some((m.entries[i].mode, copy_bytes(&m.entries[i].data))),
        None => None,
    }
}

fn same_file(a: &Option<(u32, Vec<u8>)>, b: &Option<(u32, Vec<u8>)>) -> (r: bool)
    ensures
        r == (file_view(*a) == file_view(*b)),
{
    match (a, b) {
        (Some((ma, da)), Some((mb, db))) => *ma == *mb && bytes_eq(da.as_slice(), db.as_slice()),
        (None, None) => true,
        _ => false,
    }
}

/// `idx` agrees with `from` at every path that differs between `from` and
/// `to`: moving those paths to `to` loses no staged change.
pub open spec fn agrees_where_changed(
    idx: Map<Seq<u8>, FileV>,
    from: Map<Seq<u8>, FileV>,
    to: Map<Seq<u8>, FileV>,
) -> bool {
    forall|p: Seq<u8>| #[trigger] touched(from, to, p, false) ==> at(idx, p) == at(from, p)
}

fn agrees_at(idx: &PathMap, from: &PathMap, to: &PathMap, p: &[u8]) -> (r: bool)
    requires
        idx.wf(),
        from.wf(),
        to.wf(),
    ensures
        r == (touched(from@, to@, p@, false) ==> at(idx@, p@) == at(from@, p@)),
{
    let f = file_at(from, p);
    let t = file_at(to, p);
    if same_file(&f, &t) {
        true
    } else {
        let i = file_at(idx, p);
        same_file(&i, &f)
    }
}

/// Whether `idx` agrees with `from` wherever `from` and `to` differ.
pub fn agrees_where_changed_exec(idx: &PathMap, from: &PathMap, to: &PathMap) -> (r: bool)
    requires
        idx.wf(),
        from.wf(),
        to.wf(),
    ensures
        r == agrees_where_changed(idx@, from@, to@),
{
    let ghost fs = from.seq();
    let ghost ts = to.seq();
    let mut i: usize = 0;
    while i < from.entries.len()
        invariant
            idx.wf(),
            from.wf(),
            to.wf(),
            fs == from.seq(),
            i <= fs.len(),
            forall|k: int|
                0 <= k < i ==> (touched(from@, to@, #[trigger] fs[k].0, false) ==> at(idx@, fs[k].0) == at(
                    from@,
                    fs[k].0,
                )),
        decreases fs.len() - i,
    {
        if !agrees_at(idx, from, to, from.entries[i].path.as_slice()) {
            return false;
        }
        i = i + 1;
    }
    let mut j: usize = 0;
    while j < to.entries.len()
        invariant
            idx.wf(),
            from.wf(),
            to.wf(),
            ts == to.seq(),
            j <= ts.len(),
            forall|k: int|
                0 <= k < j ==> (touched(from@, to@, #[trigger] ts[k].0, false) ==> at(idx@, ts[k].0) == at(
                    from@,
                    ts[k].0,
                )),
        decreases ts.len() - j,
    {
        if !agrees_at(idx, from, to, to.entries[j].path.as_slice()) {
            return false;
        }
        j = j + 1;
    }
    proof {
        assert forall|p: Seq<u8>| #[trigger] touched(from@, to@, p, false) implies at(idx@, p) == at(from@, p) by {
            lemma_map_of_domain(fs, p);
            lemma_map_of_domain(ts, p);
            if from@.contains_key(p) {
                let k = choose|k: int| 0 <= k < fs.len() && #[trigger] fs[k].0 == p;
                assert(touched(from@, to@, fs[k].0, false));
            } else {
                let k = choose|k: int| 0 <= k < ts.len() && #[trigger] ts[k].0 == p;
                assert(touched(from@, to@, ts[k].0, false));
            }
        }
    }
    true
}

/// Records the merge outcome of the path `p` in `out`.
fn merge_one(p: &Vec<u8>, base: &PathMap, ours: &PathMap, theirs: &PathMap, out: &mut Index)
    requires
        base.wf(),
        ours.wf(),
        theirs.wf(),
        old(out).entries.wf(),
        old(out).base.wf(),
        old(out).ours.wf(),
        old(out).theirs.wf(),
    ensures
        final(out).entries.wf(),
        final(out).base.wf(),
        final(out).ours.wf(),
        final(out).theirs.wf(),
        final(out)@.entries == match cell_at(base@, ours@, theirs@, p@) {
            Cell::Take(Some(f)) => old(out)@.entries.insert(p@, f),
            _ => old(out)@.entries,
        },
        final(out)@.base == if cell_at(base@, ours@, theirs@, p@) is Clash && base@.contains_key(p@) {
            old(out)@.base.insert(p@, base@[p@])
        } else {
            old(out)@.base
        },
        final(out)@.ours == if cell_at(base@, ours@, theirs@, p@) is Clash && ours@.contains_key(p@) {
            old(out)@.ours.insert(p@, ours@[p@])
        } else {
            old(out)@.ours
        },
        final(out)@.theirs == if cell_at(base@, ours@, theirs@, p@) is Clash && theirs@.contains_key(p@) {
            old(out)@.theirs.insert(p@, theirs@[p@])
        } else {
            old(out)@.theirs
        },
{
    let b = file_at(base, p.as_slice());
    let o = file_at(ours, p.as_slice());
    let t = file_at(theirs, p.as_slice());
    let choice: u8 = if same_file(&o, &b) {
        0
    } else if same_file(&t, &b) || same_file(&o, &t) {
        1
    } else {
        2
    };
    if choice == 0 {
        match t {
            Some((m, d)) => out.entries.insert(copy_bytes(p), m, d),
            None => {},
        }
    } else if choice == 1 {
        match o {
            Some((m, d)) => out.entries.insert(copy_bytes(p), m, d),
            None => {},
        }
    } else {
        match b {
            Some((m, d)) => out.base.insert(copy_bytes(p), m, d),
            None => {},
        }
        match o {
            Some((m, d)) => out.ours.insert(copy_bytes(p), m, d),
            None => {},
        }
        match t {
            Some((m, d)) => out.theirs.insert(copy_bytes(p), m, d),
            None => {},
        }
    }
}

/// Records in `out` the merge outcome of every path of `s`.
fn merge_pass(
    s: &PathMap,
    base: &PathMap,
    ours: &PathMap,
    theirs: &PathMap,
    out: &mut Index,
    Ghost(vis): Ghost<spec_fn(Seq<u8>) -> bool>,
)
    requires
        s.wf(),
        base.wf(),
        ours.wf(),
        theirs.wf(),
        old(out).entries.wf(),
        old(out).base.wf(),
        old(out).ours.wf(),
        old(out).theirs.wf(),
        merged_upto(old(out)@, base@, ours@, theirs@, vis),
    ensures
        final(out).entries.wf(),
        final(out).base.wf(),
        final(out).ours.wf(),
        final(out).theirs.wf(),
        merged_upto(final(out)@, base@, ours@, theirs@, |p: Seq<u8>| vis(p) || s@.contains_key(p)),
{
    let ghost ss = s.seq();
    let mut i: usize = 0;
    while i < s.entries.len()
        invariant
            s.wf(),
            base.wf(),
            ours.wf(),
            theirs.wf(),
            ss == s.seq(),
            i <= ss.len(),
            out.entries.wf(),
            out.base.wf(),
            out.ours.wf(),
            out.theirs.wf(),
            merged_upto(out@, base@, ours@, theirs@, |p: Seq<u8>| vis(p) || seen(ss, i as int, p)),
        decreases ss.len() - i,
    {
        let ghost before = out@;
        merge_one(&s.entries[i].path, base, ours, theirs, out);
        proof {
            let q = ss[i as int].0;
            assert forall|p: Seq<u8>| #[trigger] seen(ss, i + 1, p) == (seen(ss, i as int, p) || p == q) by {
                if seen(ss, i + 1, p) {
                    let k = choose|k: int| 0 <= k < i + 1 && #[trigger] ss[k].0 == p;
                    if k < i {
                        assert(seen(ss, i as int, p));
                    }
                }
                if seen(ss, i as int, p) {
                    let k = choose|k: int| 0 <= k < i && #[trigger] ss[k].0 == p;
                    assert(ss[k].0 == p);
                }
                if p == q {
                    assert(ss[i as int].0 == p);
                }
            }
            let v2 = |p: Seq<u8>| vis(p) || seen(ss, i + 1, p);
            assert(merged_upto(out@, base@, ours@, theirs@, v2));
        }
        i = i + 1;
    }
    proof {
        assert forall|p: Seq<u8>| seen(ss, ss.len() as int, p) == #[trigger] s@.contains_key(p) by {
            lemma_map_of_domain(ss, p);
        }
        let v1 = |p: Seq<u8>| vis(p) || seen(ss, ss.len() as int, p);
        let v2 = |p: Seq<u8>| vis(p) || s@.contains_key(p);
        assert forall|p: Seq<u8>| #[trigger] v1(p) == v2(p) by {
            assert(seen(ss, ss.len() as int, p) == s@.contains_key(p));
        }
        assert(merged_upto(out@, base@, ours@, theirs@, v2));
    }
}

/// The three-way merge of `ours` and `theirs` against `base`, as an index.
pub fn merge_trees(base: &PathMap, ours: &PathMap, theirs: &PathMap) -> (r: Index)
    requires
        base.wf(),
        ours.wf(),
        theirs.wf(),
    ensures
        r.wf(),
        r@ == merge_index(base@, ours@, theirs@),
{
    let mut out = Index::new();
    let ghost v0 = |p: Seq<u8>| false;
    assert(merged_upto(out@, base@, ours@, theirs@, v0));
    merge_pass(base, base, ours, theirs, &mut out, Ghost(v0));
    let ghost v1 = |p: Seq<u8>| v0(p) || base@.contains_key(p);
    merge_pass(ours, base, ours, theirs, &mut out, Ghost(v1));
    let ghost v2 = |p: Seq<u8>| v1(p) || ours@.contains_key(p);
    merge_pass(theirs, base, ours, theirs, &mut out, Ghost(v2));
    proof {
        let b = base@;
        let o = ours@;
        let t = theirs@;
        let m = merge_index(b, o, t);
        assert forall|p: Seq<u8>| #![auto] out@.entries.contains_key(p) == m.entries.contains_key(p) by {
        }
        assert(out@.entries =~= m.entries);
        assert(out@.base =~= m.base);
        assert(out@.ours =~= m.ours);
        assert(out@.theirs =~= m.theirs);
    }
    out
}

/// The message of a merge commit: `Merge commit`.
pub open spec fn merge_message() -> Seq<u8> {
    seq![77u8, 101u8, 114u8, 103u8, 101u8, 32u8, 99u8, 111u8, 109u8, 109u8, 105u8, 116u8]
}

fn merge_message_bytes() -> (r: Vec<u8>)
    ensures
        r@ == merge_message(),
{
    let mut r: Vec<u8> = Vec::new();
    r.push(77u8);
    r.push(101u8);
    r.push(114u8);
    r.push(103u8);
    r.push(101u8);
    r.push(32u8);
    r.push(99u8);
    r.push(111u8);
    r.push(109u8);
    r.push(109u8);
    r.push(105u8);
    r.push(116u8);
    assert(r@ =~= merge_message());
    r
}

/// The base, ours and theirs trees of merging `other` into `cur`; the base
/// is empty when the histories never meet.
pub open spec fn merge_inputs(objs: Objects, cur: Seq<u8>, other: Seq<u8>, fuel: nat) -> Option<
    (Map<Seq<u8>, FileV>, Map<Seq<u8>, FileV>, Map<Seq<u8>, FileV>),
> {
    match (commit_tree_at(objs, cur), commit_tree_at(objs, other)) {
        (Some(o), Some(t)) => match merge_base(objs, cur, other, fuel) {
            None => Some((Map::empty(), map_of(o), map_of(t))),
            Some(b) => match commit_tree_at(objs, b) {
                Some(bt) => Some((map_of(bt), map_of(o), map_of(t))),
                None => None,
            },
        },
        _ => None,
    }
}

/// What the working directory is brought to: the merged entries, and our
/// version of each clashing path.
pub open spec fn merge_worktree(m: IndexV) -> Map<Seq<u8>, FileV> {
    m.entries.union_prefer_right(m.ours)
}

pub open spec fn unchanged(before: Repository, after: Repository) -> bool {
    &&& before.same_state(&after)
    &&& after.objects@ == before.objects@
}

pub open spec fn merge_spec(
    before: Repository,
    after: Repository,
    branch: Seq<u8>,
    author: (Seq<u8>, u64),
    r: Result<Vec<u8>, GitError>,
) -> bool {
    let objs = before.objects@;
    let fuel = before.objects.ids@.len() as nat;
    if !before.branches@.contains_key(branch) || before.head_id() is None {
        r == Err::<Vec<u8>, GitError>(GitError::NotFound) && unchanged(before, after)
    } else if before.index@.has_conflicts() {
        r == Err::<Vec<u8>, GitError>(GitError::Conflict) && unchanged(before, after)
    } else {
        let cur = before.head_id()->0;
        let other = before.branches@[branch].1;
        match merge_inputs(objs, cur, other, fuel) {
            None => r == Err::<Vec<u8>, GitError>(GitError::Corrupt) && unchanged(before, after),
            Some((b, o, t)) => merge_outcome_spec(before, after, cur, other, b, o, t, author, r),
        }
    }
}

/// What a merge does once its three trees are known.
pub open spec fn merge_outcome_spec(
    before: Repository,
    after: Repository,
    cur: Seq<u8>,
    other: Seq<u8>,
    b: Map<Seq<u8>, FileV>,
    o: Map<Seq<u8>, FileV>,
    t: Map<Seq<u8>, FileV>,
    author: (Seq<u8>, u64),
    r: Result<Vec<u8>, GitError>,
) -> bool {
    let objs = before.objects@;
    let m = merge_index(b, o, t);
    let w = merge_worktree(m);
    if !agrees_where_changed(before.index@.entries, o, w) || !workdir_clean(before.workdir@, objs, o, w, true) {
        r == Err::<Vec<u8>, GitError>(GitError::Conflict) && unchanged(before, after)
    } else if !blobs_present(objs, w) {
        r == Err::<Vec<u8>, GitError>(GitError::Corrupt) && unchanged(before, after)
    } else if m.has_conflicts() {
        &&& r == Err::<Vec<u8>, GitError>(GitError::Conflict)
        &&& after.index@ == m
        &&& after.workdir@ == synced(before.workdir@, o, w, objs, true)
        &&& after.objects@ == objs
        &&& after.branches@ == before.branches@
        &&& after.head@ == before.head@
    } else {
        let tree = ObjectV::Tree(entries_of(m.entries));
        let c = CommitV {
            tree: object_id(tree),
            parents: seq![cur, other],
            author,
            committer: author,
            message: merge_message(),
        };
        &&& (r is Ok <==> store_both(objs, tree, ObjectV::Commit(c)) is None)
        &&& (r matches Err(e) ==> store_both(objs, tree, ObjectV::Commit(c)) == Some(e))
        &&& match r {
            Ok(id) => {
                &&& id@ == object_id(ObjectV::Commit(c))
                &&& grows(objs, after.objects@)
                &&& after.objects@.contains_key(object_id(tree))
                &&& after.objects@[object_id(tree)] == tree
                &&& after.objects@.contains_key(id@)
                &&& after.objects@[id@] == ObjectV::Commit(c)
                &&& after.index@ == IndexV::clean(m.entries)
                &&& after.workdir@ == synced(before.workdir@, o, w, objs, true)
                &&& after.branches@ == moved_branches(before.head@, before.branches@, id@)
                &&& after.head@ == moved_head(before.head@, id@)
            },
            Err(e) => (e == GitError::Corrupt || e == GitError::Digest) && before.same_state(&after),
        }
    }
}

impl Repository {
    /// Merges the branch `branch` into HEAD. Without clashes the result is
    /// committed with HEAD's commit and the branch's as parents; with clashes
    /// the index keeps their three stages and `Conflict` is returned.
    #[verifier::rlimit(60)]
    #[verifier::spinoff_prover]
    pub fn merge(&mut self, branch: &[u8], author: &Signature) -> (r: Result<Vec<u8>, GitError>)
        requires
            old(self).wf(),
        ensures
            final(self).wf(),
            merge_spec(*old(self), *final(self), branch@, author@, r),
    {
        let other = match self.branches.find(branch) {
            Some(i) => copy_bytes(&self.branches.entries[i].data),
            None => {
                return Err(GitError::NotFound);
            },
        };
        let cur = match self.head_commit() {
            Some(h) => h,
            None => {
                return Err(GitError::NotFound);
            },
        };
        if self.index.has_conflicts() {
            return Err(GitError::Conflict);
        }
        let ours = match self.commit_tree(cur.as_slice()) {
            Ok(t) => t.copy(),
            Err(_) => {
                return Err(GitError::Corrupt);
            },
        };
        let theirs = match self.commit_tree(other.as_slice()) {
            Ok(t) => t.copy(),
            Err(_) => {
                return Err(GitError::Corrupt);
            },
        };
        let base = match self.merge_base(cur.as_slice(), other.as_slice()) {
            None => PathMap::new(),
            Some(b) => match self.commit_tree(b.as_slice()) {
                Ok(t) => t.copy(),
                Err(_) => {
                    return Err(GitError::Corrupt);
                },
            },
        };
        self.finish_merge(cur, other, &base, &ours, &theirs, author)
    }

    /// The part of a merge after its three trees are known.
    #[verifier::rlimit(60)]
    fn finish_merge(
        &mut self,
        cur: Vec<u8>,
        other: Vec<u8>,
        base: &PathMap,
        ours: &PathMap,
        theirs: &PathMap,
        author: &Signature,
    ) -> (r: Result<Vec<u8>, GitError>)
        requires
            old(self).wf(),
            base.wf(),
            ours.wf(),
            theirs.wf(),
        ensures
            final(self).wf(),
            merge_outcome_spec(*old(self), *final(self), cur@, other@, base@, ours@, theirs@, author@, r),
    {
        let m = merge_trees(base, ours, theirs);
        let mut w = m.entries.copy();
        w.insert_all(&m.ours);
        if !agrees_where_changed_exec(&self.index.entries, ours, &w) || !workdir_clean_exec(
            &self.workdir,
            &self.objects,
            ours,
            &w,
            true,
        ) {
            return Err(GitError::Conflict);
        }
        if !self.blobs_stored(&w) {
            return Err(GitError::Corrupt);
        }
        if m.has_conflicts() {
            sync_workdir(&mut self.workdir, &self.objects, ours, &w, true);
            self.index = m;
            return Err(GitError::Conflict);
        }
        let ghost before = *self;
        proof {
            lemma_entries_of(m.entries.seq());
        }
        let tree = match self.store(Object::Tree(m.entries.copy())) {
            Ok(t) => t,
            Err(e) => {
                return Err(e);
            },
        };
        let mut parents: Vec<Vec<u8>> = Vec::new();
        parents.push(cur);
        parents.push(other);
        proof {
            assert(ids_view(parents@) =~= seq![cur@, other@]);
        }
        let id = match self.record_commit(tree, parents, merge_message_bytes(), author) {
            Ok(id) => id,
            Err(e) => {
                return Err(e);
            },
        };
        proof {
            lemma_entries_of(m.entries.seq());
            lemma_synced_grows(before.workdir@, ours@, w@, before.objects@, self.objects@, true);
        }
        sync_workdir(&mut self.workdir, &self.objects, ours, &w, true);
        self.index = Index::from_entries(m.entries);
        Ok(id)
    }
}


} // verus!
