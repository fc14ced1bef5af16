//! A map from paths to `(mode, bytes)`, kept as a vector sorted strictly by
//! path in byte order. Trees, the index's unconflicted entries and the working
//! directory are all of this shape.
use vstd::prelude::*;
use crate::bytes::{bytes_cmp, bytes_eq, bytes_lt, copy_bytes, lemma_lt_irreflexive, lemma_lt_ne, lemma_lt_total, lemma_lt_transitive};

verus! {

/// A file as tracked by a map: its mode and its bytes (content or object id).
pub type FileV = (u32, Seq<u8>);

/// An entry as the model sees it: path, mode and bytes.
pub type EntryV = (Seq<u8>, u32, Seq<u8>);

pub struct FileEntry {
    pub path: Vec<u8>,
    pub mode: u32,
    pub data: Vec<u8>,
}

impl FileEntry {
    pub open spec fn view(&self) -> EntryV {
        (self.path@, self.mode, self.data@)
    }
}

/// Paths strictly increase along the sequence.
pub open spec fn sorted(s: Seq<EntryV>) -> bool {
    forall|i: int, j: int| 0 <= i < j < s.len() ==> bytes_lt(#[trigger] s[i].0, #[trigger] s[j].0)
}

/// The map that a sequence of entries describes.
pub open spec fn map_of(s: Seq<EntryV>) -> Map<Seq<u8>, FileV>
    decreases s.len(),
{
    if s.len() == 0 {
        Map::empty()
    } else {
        map_of(s.drop_last()).insert(s.last().0, (s.last().1, s.last().2))
    }
}

pub proof fn lemma_map_of_domain(s: Seq<EntryV>, p: Seq<u8>)
    ensures
        map_of(s).contains_key(p) <==> exists|i: int| 0 <= i < s.len() && #[trigger] s[i].0 == p,
    decreases s.len(),
{
    if s.len() > 0 {
        lemma_map_of_domain(s.drop_last(), p);
        if map_of(s).contains_key(p) && p != s.last().0 {
            let i = choose|i: int| 0 <= i < s.drop_last().len() && #[trigger] s.drop_last()[i].0 == p;
            assert(s[i].0 == p);
        }
        if exists|i: int| 0 <= i < s.len() && #[trigger] s[i].0 == p {
            let i = choose|i: int| 0 <= i < s.len() && #[trigger] s[i].0 == p;
            if i < s.len() - 1 {
                assert(s.drop_last()[i].0 == p);
            }
        }
    }
}

pub proof fn lemma_map_of_value(s: Seq<EntryV>, i: int)
    requires
        sorted(s),
        0 <= i < s.len(),
    ensures
        map_of(s).contains_key(s[i].0),
        map_of(s)[s[i].0] == (s[i].1, s[i].2),
    decreases s.len(),
{
    if i < s.len() - 1 {
        assert(sorted(s.drop_last()));
        lemma_map_of_value(s.drop_last(), i);
        assert(bytes_lt(s[i].0, s[s.len() - 1].0));
        lemma_lt_ne(s[i].0, s.last().0);
    }
}

/// Two sorted sequences describe the same map exactly when they are equal.
pub proof fn lemma_map_of_sorted_eq(s: Seq<EntryV>, t: Seq<EntryV>)
    requires
        sorted(s),
        sorted(t),
        map_of(s) == map_of(t),
    ensures
        s == t,
    decreases s.len(),
{
    if s.len() == 0 || t.len() == 0 {
        if s.len() > 0 {
            lemma_map_of_value(s, 0);
        }
        if t.len() > 0 {
            lemma_map_of_value(t, 0);
        }
        assert(s =~= t);
    } else {
        let ls = s.last();
        let lt = t.last();
        lemma_map_of_value(s, s.len() - 1);
        lemma_map_of_value(t, t.len() - 1);
        lemma_map_of_domain(s, lt.0);
        lemma_map_of_domain(t, ls.0);
        let i = choose|i: int| 0 <= i < s.len() && #[trigger] s[i].0 == lt.0;
        let j = choose|j: int| 0 <= j < t.len() && #[trigger] t[j].0 == ls.0;
        if i < s.len() - 1 {
            assert(bytes_lt(s[i].0, s[s.len() - 1].0));
            if j < t.len() - 1 {
                assert(bytes_lt(t[j].0, t[t.len() - 1].0));
                lemma_lt_transitive(lt.0, ls.0, lt.0);
                lemma_lt_irreflexive(lt.0);
            }
            lemma_lt_irreflexive(lt.0);
        }
        assert(ls.0 == lt.0) by {
            if i < s.len() - 1 {
                lemma_lt_irreflexive(lt.0);
            }
        }
        assert(sorted(s.drop_last()));
        assert(sorted(t.drop_last()));
        lemma_map_of_not_key(s.drop_last(), ls.0);
        lemma_map_of_not_key(t.drop_last(), lt.0);
        assert(map_of(s.drop_last()) =~= map_of(s).remove(ls.0));
        assert(map_of(t.drop_last()) =~= map_of(t).remove(lt.0));
        lemma_map_of_sorted_eq(s.drop_last(), t.drop_last());
        assert(s =~= s.drop_last().push(ls));
        assert(t =~= t.drop_last().push(lt));
    }
}

/// Entries at different positions of a sorted sequence have different paths.
pub proof fn lemma_lt_ne_paths(s: Seq<EntryV>, i: int, j: int)
    requires
        sorted(s),
        0 <= i < s.len(),
        0 <= j < s.len(),
        i != j,
    ensures
        s[i].0 != s[j].0,
{
    if i < j {
        lemma_lt_ne(s[i].0, s[j].0);
    } else {
        lemma_lt_ne(s[j].0, s[i].0);
    }
}

/// A path sorting after every entry is not a key.
proof fn lemma_map_of_not_key(s: Seq<EntryV>, p: Seq<u8>)
    requires
        forall|i: int| 0 <= i < s.len() ==> bytes_lt(#[trigger] s[i].0, p),
    ensures
        !map_of(s).contains_key(p),
{
    lemma_map_of_domain(s, p);
    if exists|i: int| 0 <= i < s.len() && #[trigger] s[i].0 == p {
        let i = choose|i: int| 0 <= i < s.len() && #[trigger] s[i].0 == p;
        lemma_lt_irreflexive(p);
    }
}

/// The sorted entries that describe `m` (there is at most one such sequence).
pub open spec fn entries_of(m: Map<Seq<u8>, FileV>) -> Seq<EntryV> {
    choose|s: Seq<EntryV>| sorted(s) && map_of(s) == m
}

pub proof fn lemma_entries_of(s: Seq<EntryV>)
    requires
        sorted(s),
    ensures
        entries_of(map_of(s)) == s,
{
    let m = map_of(s);
    assert(sorted(s) && map_of(s) == m);
    let t = entries_of(m);
    lemma_map_of_sorted_eq(t, s);
}

pub struct PathMap {
    pub entries: Vec<FileEntry>,
}

impl PathMap {
    pub open spec fn seq(&self) -> Seq<EntryV> {
        self.entries@.map_values(|e: FileEntry| e@)
    }

    pub open spec fn wf(&self) -> bool {
        sorted(self.seq())
    }

    pub open spec fn view(&self) -> Map<Seq<u8>, FileV> {
        map_of(self.seq())
    }

    pub fn new() -> (r: PathMap)
        ensures
            r.wf(),
            r@ == Map::<Seq<u8>, FileV>::empty(),
    {
        let r = PathMap { entries: Vec::new() };
        assert(r.seq() =~= Seq::<EntryV>::empty());
        r
    }

    pub fn len(&self) -> (r: usize)
        requires
            self.wf(),
        ensures
            r == self@.len(),
            r == self.seq().len(),
    {
        proof {
            self.lemma_len();
        }
        self.entries.len()
    }

    proof fn lemma_len(&self)
        requires
            self.wf(),
        ensures
            self@.dom().finite(),
            self@.len() == self.seq().len(),
    {
        lemma_map_of_finite_len(self.seq());
    }

    /// The position of `path`, if it is a key.
    pub fn find(&self, path: &[u8]) -> (r: Option<usize>)
        requires
            self.wf(),
        ensures
            r is None <==> !self@.contains_key(path@),
            r matches Some(i) ==> i < self.entries@.len() && self.seq()[i as int].0 == path@
                && self@[path@] == (self.seq()[i as int].1, self.seq()[i as int].2),
    {
        let mut i: usize = 0;
        while i < self.entries.len()
            invariant
                self.wf(),
                i <= self.entries@.len(),
                forall|k: int| 0 <= k < i ==> self.seq()[k].0 != path@,
            decreases self.entries@.len() - i,
        {
            if bytes_eq(self.entries[i].path.as_slice(), path) {
                proof {
                    lemma_map_of_value(self.seq(), i as int);
                }
                return Some(i);
            }
            i = i + 1;
        }
        proof {
            lemma_map_of_domain(self.seq(), path@);
        }
        None
    }

    /// The first position whose path does not sort before `path`.
    fn position(&self, path: &[u8]) -> (r: usize)
        requires
            self.wf(),
        ensures
            r <= self.entries@.len(),
            forall|k: int| 0 <= k < r ==> bytes_lt(#[trigger] self.seq()[k].0, path@),
            r < self.entries@.len() ==> !bytes_lt(self.seq()[r as int].0, path@),
    {
        let mut i: usize = 0;
        while i < self.entries.len()
            invariant
                i <= self.entries@.len(),
                forall|k: int| 0 <= k < i ==> bytes_lt(#[trigger] self.seq()[k].0, path@),
            decreases self.entries@.len() - i,
        {
            if bytes_cmp(self.entries[i].path.as_slice(), path) != -1 {
                return i;
            }
            i = i + 1;
        }
        i
    }

    /// Sets `path` to `(mode, data)`, adding it in order when it is new.
    pub fn insert(&mut self, path: Vec<u8>, mode: u32, data: Vec<u8>)
        requires
            old(self).wf(),
        ensures
            final(self).wf(),
            final(self)@ == old(self)@.insert(path@, (mode, data@)),
    {
        let i = self.position(path.as_slice());
        let ghost s = self.seq();
        let ghost e: EntryV = (path@, mode, data@);
        if i < self.entries.len() && bytes_eq(self.entries[i].path.as_slice(), path.as_slice()) {
            self.entries.set(i, FileEntry { path, mode, data });
            proof {
                let t = self.seq();
                assert(t =~= s.update(i as int, e));
                assert forall|a: int, b: int| 0 <= a < b < t.len() implies bytes_lt(
                    #[trigger] t[a].0,
                    #[trigger] t[b].0,
                ) by {
                    assert(s[a].0 == t[a].0 || a == i);
                    assert(s[b].0 == t[b].0 || b == i);
                    assert(bytes_lt(s[a].0, s[b].0));
                }
                lemma_map_of_update(s, i as int, e);
            }
        } else {
            proof {
                if i < s.len() {
                    lemma_lt_total(s[i as int].0, path@);
                }
            }
            self.entries.insert(i, FileEntry { path, mode, data });
            proof {
                let t = self.seq();
                assert(t =~= s.insert(i as int, e));
                assert forall|a: int, b: int| 0 <= a < b < t.len() implies bytes_lt(
                    #[trigger] t[a].0,
                    #[trigger] t[b].0,
                ) by {
                    if a < i && b > i {
                        assert(t[a] == s[a]);
                        assert(t[b] == s[b - 1]);
                        if b - 1 > i {
                            assert(bytes_lt(s[i as int].0, s[b - 1].0));
                            lemma_lt_transitive(path@, s[i as int].0, s[b - 1].0);
                        }
                        lemma_lt_transitive(s[a].0, path@, s[b - 1].0);
                    } else if a == i && b > i {
                        if b - 1 > i {
                            assert(bytes_lt(s[i as int].0, s[b - 1].0));
                            lemma_lt_transitive(path@, s[i as int].0, s[b - 1].0);
                        }
                    } else if a > i {
                        assert(bytes_lt(s[a - 1].0, s[b - 1].0));
                    } else if b == i {
                    } else {
                        assert(bytes_lt(s[a].0, s[b].0));
                    }
                }
                lemma_map_of_insert(s, i as int, e);
            }
        }
    }

    /// Removes `path`, if it is a key.
    pub fn remove(&mut self, path: &[u8])
        requires
            old(self).wf(),
        ensures
            final(self).wf(),
            final(self)@ == old(self)@.remove(path@),
    {
        match self.find(path) {
            None => {
                assert(self@ =~= self@.remove(path@));
            },
            Some(i) => {
                let ghost s = self.seq();
                self.entries.remove(i);
                proof {
                    let t = self.seq();
                    assert(t =~= s.remove(i as int));
                    assert forall|a: int, b: int| 0 <= a < b < t.len() implies bytes_lt(
                        #[trigger] t[a].0,
                        #[trigger] t[b].0,
                    ) by {
                        if a < i && b >= i {
                            assert(bytes_lt(s[a].0, s[b + 1].0));
                        } else if a >= i {
                            assert(bytes_lt(s[a + 1].0, s[b + 1].0));
                        } else {
                            assert(bytes_lt(s[a].0, s[b].0));
                        }
                    }
                    lemma_map_of_remove(s, i as int);
                }
            },
        }
    }

    /// Sets every path of `other` to its entry there.
    pub fn insert_all(&mut self, other: &PathMap)
        requires
            old(self).wf(),
            other.wf(),
        ensures
            final(self).wf(),
            final(self)@ == old(self)@.union_prefer_right(other@),
    {
        let ghost start = self@;
        let ghost os = other.seq();
        let mut i: usize = 0;
        while i < other.entries.len()
            invariant
                self.wf(),
                os == other.seq(),
                i <= os.len(),
                self@ == start.union_prefer_right(map_of(os.subrange(0, i as int))),
            decreases os.len() - i,
        {
            let e = &other.entries[i];
            self.insert(copy_bytes(&e.path), e.mode, copy_bytes(&e.data));
            proof {
                assert(os.subrange(0, i + 1).drop_last() =~= os.subrange(0, i as int));
                assert(self@ =~= start.union_prefer_right(map_of(os.subrange(0, i + 1))));
            }
            i = i + 1;
        }
        assert(os.subrange(0, i as int) =~= os);
    }

    /// A copy with the same entries in the same order.
    pub fn copy(&self) -> (r: PathMap)
        ensures
            r.seq() == self.seq(),
            r@ == self@,
            r.wf() == self.wf(),
    {
        let mut entries: Vec<FileEntry> = Vec::new();
        let mut i: usize = 0;
        while i < self.entries.len()
            invariant
                i <= self.entries@.len(),
                entries@.len() == i,
                forall|k: int| 0 <= k < i ==> (#[trigger] entries@[k])@ == self.entries@[k]@,
            decreases self.entries@.len() - i,
        {
            let e = &self.entries[i];
            entries.push(FileEntry { path: copy_bytes(&e.path), mode: e.mode, data: copy_bytes(&e.data) });
            i = i + 1;
        }
        let r = PathMap { entries };
        assert(r.seq() =~= self.seq());
        r
    }
}

proof fn lemma_map_of_finite_len(s: Seq<EntryV>)
    requires
        sorted(s),
    ensures
        map_of(s).dom().finite(),
        map_of(s).len() == s.len(),
    decreases s.len(),
{
    if s.len() > 0 {
        assert(sorted(s.drop_last()));
        lemma_map_of_finite_len(s.drop_last());
        assert forall|i: int| 0 <= i < s.drop_last().len() implies bytes_lt(
            #[trigger] s.drop_last()[i].0,
            s.last().0,
        ) by {
            assert(bytes_lt(s[i].0, s[s.len() - 1].0));
        }
        lemma_map_of_not_key(s.drop_last(), s.last().0);
    }
}

/// Replacing the entry at `i` by one with the same path updates that key.
proof fn lemma_map_of_update(s: Seq<EntryV>, i: int, e: EntryV)
    requires
        sorted(s),
        0 <= i < s.len(),
        s[i].0 == e.0,
        sorted(s.update(i, e)),
    ensures
        map_of(s.update(i, e)) == map_of(s).insert(e.0, (e.1, e.2)),
{
    let t = s.update(i, e);
    assert forall|p: Seq<u8>| #![auto] map_of(t).contains_key(p) == map_of(s).insert(e.0, (e.1, e.2)).contains_key(p) by {
        lemma_map_of_domain(t, p);
        lemma_map_of_domain(s, p);
        if exists|k: int| 0 <= k < s.len() && #[trigger] s[k].0 == p {
            let k = choose|k: int| 0 <= k < s.len() && #[trigger] s[k].0 == p;
            assert(t[k].0 == p);
        }
    }
    assert forall|p: Seq<u8>| #![auto] map_of(t).contains_key(p) implies map_of(t)[p] == map_of(s).insert(e.0, (e.1, e.2))[p] by {
        lemma_map_of_domain(t, p);
        let k = choose|k: int| 0 <= k < t.len() && #[trigger] t[k].0 == p;
        lemma_map_of_value(t, k);
        if k < i {
            lemma_map_of_value(s, k);
            lemma_lt_ne(t[k].0, t[i].0);
        } else if k > i {
            lemma_map_of_value(s, k);
            lemma_lt_ne(t[i].0, t[k].0);
        }
    }
    assert(map_of(t) =~= map_of(s).insert(e.0, (e.1, e.2)));
}

/// Inserting a new entry at position `i` adds that key.
proof fn lemma_map_of_insert(s: Seq<EntryV>, i: int, e: EntryV)
    requires
        sorted(s),
        0 <= i <= s.len(),
        sorted(s.insert(i, e)),
    ensures
        map_of(s.insert(i, e)) == map_of(s).insert(e.0, (e.1, e.2)),
{
    let t = s.insert(i, e);
    assert forall|p: Seq<u8>| #![auto] map_of(t).contains_key(p) == map_of(s).insert(e.0, (e.1, e.2)).contains_key(p) by {
        lemma_map_of_domain(t, p);
        lemma_map_of_domain(s, p);
        if exists|k: int| 0 <= k < s.len() && #[trigger] s[k].0 == p {
            let k = choose|k: int| 0 <= k < s.len() && #[trigger] s[k].0 == p;
            if k < i {
                assert(t[k].0 == p);
            } else {
                assert(t[k + 1].0 == p);
            }
        }
        if exists|k: int| 0 <= k < t.len() && #[trigger] t[k].0 == p {
            let k = choose|k: int| 0 <= k < t.len() && #[trigger] t[k].0 == p;
            if k < i {
                assert(s[k].0 == p);
            } else if k > i {
                assert(s[k - 1].0 == p);
            }
        }
        assert(t[i].0 == e.0);
    }
    assert forall|p: Seq<u8>| #![auto] map_of(t).contains_key(p) implies map_of(t)[p] == map_of(s).insert(e.0, (e.1, e.2))[p] by {
        lemma_map_of_domain(t, p);
        let k = choose|k: int| 0 <= k < t.len() && #[trigger] t[k].0 == p;
        lemma_map_of_value(t, k);
        lemma_map_of_value(t, i);
        if k < i {
            lemma_map_of_value(s, k);
            lemma_lt_ne(t[k].0, t[i].0);
        } else if k > i {
            lemma_map_of_value(s, k - 1);
            lemma_lt_ne(t[i].0, t[k].0);
        }
    }
    assert(map_of(t) =~= map_of(s).insert(e.0, (e.1, e.2)));
}

/// Removing the entry at position `i` removes its key.
proof fn lemma_map_of_remove(s: Seq<EntryV>, i: int)
    requires
        sorted(s),
        0 <= i < s.len(),
        sorted(s.remove(i)),
    ensures
        map_of(s.remove(i)) == map_of(s).remove(s[i].0),
{
    let t = s.remove(i);
    let q = s[i].0;
    assert forall|p: Seq<u8>| #![auto] map_of(t).contains_key(p) == map_of(s).remove(q).contains_key(p) by {
        lemma_map_of_domain(t, p);
        lemma_map_of_domain(s, p);
        if exists|k: int| 0 <= k < s.len() && #[trigger] s[k].0 == p {
            let k = choose|k: int| 0 <= k < s.len() && #[trigger] s[k].0 == p;
            if k < i {
                assert(t[k].0 == p);
            } else if k > i {
                assert(t[k - 1].0 == p);
            }
        }
        if exists|k: int| 0 <= k < t.len() && #[trigger] t[k].0 == p {
            let k = choose|k: int| 0 <= k < t.len() && #[trigger] t[k].0 == p;
            if k < i {
                assert(s[k].0 == p);
                assert(bytes_lt(s[k].0, s[i].0));
                lemma_lt_ne(s[k].0, s[i].0);
            } else {
                assert(s[k + 1].0 == p);
                assert(bytes_lt(s[i].0, s[k + 1].0));
                lemma_lt_ne(s[i].0, s[k + 1].0);
            }
        }
    }
    assert forall|p: Seq<u8>| #![auto] map_of(t).contains_key(p) implies map_of(t)[p] == map_of(s).remove(q)[p] by {
        lemma_map_of_domain(t, p);
        let k = choose|k: int| 0 <= k < t.len() && #[trigger] t[k].0 == p;
        lemma_map_of_value(t, k);
        if k < i {
            lemma_map_of_value(s, k);
        } else {
            lemma_map_of_value(s, k + 1);
        }
    }
    assert(map_of(t) =~= map_of(s).remove(q));
}

} // verus!
