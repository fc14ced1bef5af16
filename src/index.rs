//! The staging index: unconflicted entries (stage 0) and, during an
//! unresolved merge, the common-ancestor, ours and theirs stages of each
//! conflicted path.
use vstd::prelude::*;
use crate::pathmap::{FileV, PathMap};

verus! {

pub struct Index {
    /// Stage 0: path to (mode, blob id).
    pub entries: PathMap,
    /// Stage 1: the common ancestor's version of each conflicted path.
    pub base: PathMap,
    /// Stage 2: our version of each conflicted path.
    pub ours: PathMap,
    /// Stage 3: their version of each conflicted path.
    pub theirs: PathMap,
}

pub struct IndexV {
    pub entries: Map<Seq<u8>, FileV>,
    pub base: Map<Seq<u8>, FileV>,
    pub ours: Map<Seq<u8>, FileV>,
    pub theirs: Map<Seq<u8>, FileV>,
}

impl IndexV {
    pub open spec fn conflicted(&self, p: Seq<u8>) -> bool {
        self.base.contains_key(p) || self.ours.contains_key(p) || self.theirs.contains_key(p)
    }

    pub open spec fn has_conflicts(&self) -> bool {
        !self.base.is_empty() || !self.ours.is_empty() || !self.theirs.is_empty()
    }

    /// A path has either a stage-0 entry or conflict stages, never both.
    pub open spec fn stages_disjoint(&self) -> bool {
        forall|p: Seq<u8>| #[trigger] self.entries.contains_key(p) ==> !self.conflicted(p)
    }

    /// The index with stage 0 set to `entries` and no conflicts.
    pub open spec fn clean(entries: Map<Seq<u8>, FileV>) -> IndexV {
        IndexV { entries, base: Map::empty(), ours: Map::empty(), theirs: Map::empty() }
    }
}

impl Index {
    pub open spec fn view(&self) -> IndexV {
        IndexV {
            entries: self.entries@,
            base: self.base@,
            ours: self.ours@,
            theirs: self.theirs@,
        }
    }

    pub open spec fn wf(&self) -> bool {
        &&& self.entries.wf()
        &&& self.base.wf()
        &&& self.ours.wf()
        &&& self.theirs.wf()
        &&& self@.stages_disjoint()
    }

    pub fn new() -> (r: Index)
        ensures
            r.wf(),
            r@ == IndexV::clean(Map::empty()),
    {
        Index { entries: PathMap::new(), base: PathMap::new(), ours: PathMap::new(), theirs: PathMap::new() }
    }

    /// An index whose stage 0 is `entries` and which has no conflicts.
    pub fn from_entries(entries: PathMap) -> (r: Index)
        requires
            entries.wf(),
        ensures
            r.wf(),
            r.entries.seq() == entries.seq(),
            r@ == IndexV::clean(entries@),
    {
        Index { entries, base: PathMap::new(), ours: PathMap::new(), theirs: PathMap::new() }
    }

    pub fn has_conflicts(&self) -> (r: bool)
        requires
            self.wf(),
        ensures
            r == self@.has_conflicts(),
    {
        let r = self.base.len() > 0 || self.ours.len() > 0 || self.theirs.len() > 0;
        proof {
            if self.base@.len() > 0 {
                assert(self.base@.dom().len() > 0);
                let k = self.base@.dom().choose();
                assert(self.base@.dom().contains(k));
            }
            if self.ours@.len() > 0 {
                let k = self.ours@.dom().choose();
                assert(self.ours@.dom().contains(k));
            }
            if self.theirs@.len() > 0 {
                let k = self.theirs@.dom().choose();
                assert(self.theirs@.dom().contains(k));
            }
            if !r {
                assert(self.base@ =~= Map::empty());
                assert(self.ours@ =~= Map::empty());
                assert(self.theirs@ =~= Map::empty());
            }
        }
        r
    }

    /// Sets the stage-0 entry of `path`, and drops any conflict stages of it.
    pub fn stage(&mut self, path: Vec<u8>, mode: u32, id: Vec<u8>)
        requires
            old(self).wf(),
        ensures
            final(self).wf(),
            final(self)@ == stage_spec(old(self)@, path@, (mode, id@)),
    {
        self.base.remove(path.as_slice());
        self.ours.remove(path.as_slice());
        self.theirs.remove(path.as_slice());
        let ghost p = path@;
        self.entries.insert(path, mode, id);
        proof {
            assert forall|q: Seq<u8>| #[trigger] self@.entries.contains_key(q) implies !self@.conflicted(q) by {
                if q != p {
                    assert(old(self)@.entries.contains_key(q));
                }
            }
        }
    }

    /// Records `(mode, id)` as conflict stage `stage` (1: common ancestor,
    /// 2: ours, 3: theirs) of `path`, dropping its stage-0 entry.
    pub fn stage_conflict(&mut self, path: Vec<u8>, stage: u8, mode: u32, id: Vec<u8>)
        requires
            old(self).wf(),
            1 <= stage <= 3,
        ensures
            final(self).wf(),
            final(self)@ == stage_conflict_spec(old(self)@, path@, stage, (mode, id@)),
    {
        self.entries.remove(path.as_slice());
        let ghost p = path@;
        if stage == 1 {
            self.base.insert(path, mode, id);
        } else if stage == 2 {
            self.ours.insert(path, mode, id);
        } else {
            self.theirs.insert(path, mode, id);
        }
        proof {
            assert forall|q: Seq<u8>| #[trigger] self@.entries.contains_key(q) implies !self@.conflicted(q) by {
                assert(old(self)@.entries.contains_key(q));
            }
        }
    }

    /// Drops every entry of `path`, at any stage.
    pub fn unstage(&mut self, path: &[u8])
        requires
            old(self).wf(),
        ensures
            final(self).wf(),
            final(self)@ == unstage_spec(old(self)@, path@),
    {
        self.base.remove(path);
        self.ours.remove(path);
        self.theirs.remove(path);
        self.entries.remove(path);
        proof {
            assert forall|q: Seq<u8>| #[trigger] self@.entries.contains_key(q) implies !self@.conflicted(q) by {
                assert(old(self)@.entries.contains_key(q));
            }
        }
    }
}

pub open spec fn stage_spec(i: IndexV, p: Seq<u8>, f: FileV) -> IndexV {
    IndexV {
        entries: i.entries.insert(p, f),
        base: i.base.remove(p),
        ours: i.ours.remove(p),
        theirs: i.theirs.remove(p),
    }
}

pub open spec fn stage_conflict_spec(i: IndexV, p: Seq<u8>, stage: u8, f: FileV) -> IndexV {
    IndexV {
        entries: i.entries.remove(p),
        base: if stage == 1 { i.base.insert(p, f) } else { i.base },
        ours: if stage == 2 { i.ours.insert(p, f) } else { i.ours },
        theirs: if stage == 3 { i.theirs.insert(p, f) } else { i.theirs },
    }
}

pub open spec fn unstage_spec(i: IndexV, p: Seq<u8>) -> IndexV {
    IndexV {
        entries: i.entries.remove(p),
        base: i.base.remove(p),
        ours: i.ours.remove(p),
        theirs: i.theirs.remove(p),
    }
}

} // verus!
