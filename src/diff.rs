//! Path-level differences between two trees.
use vstd::prelude::*;
use crate::bytes::copy_bytes;
use crate::merge::{file_at, file_view};
use crate::pathmap::{lemma_map_of_domain, lemma_map_of_value, lemma_lt_ne_paths, FileV, PathMap};
use crate::sync::{at, touched};

verus! {

/// One changed path: its entry before (none when added) and after (none when deleted).
pub struct Change {
    pub path: Vec<u8>,
    pub old: Option<(u32, Vec<u8>)>,
    pub new: Option<(u32, Vec<u8>)>,
}

#[derive(Clone, Copy, Debug, PartialEq, Eq, Structural)]
pub enum ChangeKind {
    Added,
    Deleted,
    Modified,
    ModeChanged,
}

pub open spec fn change_kind(old: Option<FileV>, new: Option<FileV>) -> ChangeKind {
    match (old, new) {
        (None, _) => ChangeKind::Added,
        (Some(_), None) => ChangeKind::Deleted,
        (Some(o), Some(n)) => if o.1 == n.1 {
            ChangeKind::ModeChanged
        } else {
            ChangeKind::Modified
        },
    }
}

impl Change {
    pub open spec fn view(&self) -> (Seq<u8>, Option<FileV>, Option<FileV>) {
        (self.path@, file_view(self.old), file_view(self.new))
    }

    /// What kind of change this is.
    pub fn kind(&self) -> (r: ChangeKind)
        ensures
            r == change_kind(file_view(self.old), file_view(self.new)),
    {
        match (&self.old, &self.new) {
            (None, _) => ChangeKind::Added,
            (Some(_), None) => ChangeKind::Deleted,
            (Some((_, o)), Some((_, n))) => if crate::bytes::bytes_eq(o.as_slice(), n.as_slice()) {
                ChangeKind::ModeChanged
            } else {
                ChangeKind::Modified
            },
        }
    }
}

/// `r` lists each path whose entry differs between `a` and `b` exactly once,
/// with its entry in each.
pub open spec fn is_diff(r: Seq<Change>, a: Map<Seq<u8>, FileV>, b: Map<Seq<u8>, FileV>) -> bool {
    &&& forall|i: int|
        #![trigger r[i]]
        0 <= i < r.len() ==> touched(a, b, r[i].path@, false) && file_view(r[i].old) == at(a, r[i].path@)
            && file_view(r[i].new) == at(b, r[i].path@)
    &&& forall|i: int, j: int| 0 <= i < j < r.len() ==> (#[trigger] r[i]).path@ != (#[trigger] r[j]).path@
    &&& forall|p: Seq<u8>| #[trigger] touched(a, b, p, false) ==> exists|i: int| 0 <= i < r.len() && r[i].path@ == p
}

/// The changes that turn the tree `a` into the tree `b`.
pub fn diff(a: &PathMap, b: &PathMap) -> (r: Vec<Change>)
    requires
        a.wf(),
        b.wf(),
    ensures
        is_diff(r@, a@, b@),
{
    let ghost sa = a.seq();
    let ghost sb = b.seq();
    let mut r: Vec<Change> = Vec::new();
    let mut i: usize = 0;
    while i < a.entries.len()
        invariant
            a.wf(),
            b.wf(),
            sa == a.seq(),
            i <= sa.len(),
            forall|k: int|
                #![trigger r@[k]]
                0 <= k < r@.len() ==> touched(a@, b@, r@[k].path@, false) && file_view(r@[k].old) == at(
                    a@,
                    r@[k].path@,
                ) && file_view(r@[k].new) == at(b@, r@[k].path@) && a@.contains_key(r@[k].path@)
                    && exists|m: int| 0 <= m < i && #[trigger] sa[m].0 == r@[k].path@,
            forall|k: int, l: int| 0 <= k < l < r@.len() ==> (#[trigger] r@[k]).path@ != (#[trigger] r@[l]).path@,
            forall|m: int|
                0 <= m < i && touched(a@, b@, #[trigger] sa[m].0, false) ==> exists|k: int|
                    0 <= k < r@.len() && r@[k].path@ == sa[m].0,
        decreases sa.len() - i,
    {
        let e = &a.entries[i];
        proof {
            lemma_map_of_value(sa, i as int);
        }
        let old = Some((e.mode, copy_bytes(&e.data)));
        let new = file_at(b, e.path.as_slice());
        let same = match &new {
            Some((m, d)) => *m == e.mode && crate::bytes::bytes_eq(d.as_slice(), e.data.as_slice()),
            None => false,
        };
        let ghost r0 = r@;
        assert(same == !touched(a@, b@, sa[i as int].0, false));
        if !same {
            let ghost n = r@.len();
            proof {
                assert forall|k: int| 0 <= k < n implies r@[k].path@ != e.path@ by {
                    let m = choose|m: int| 0 <= m < i && #[trigger] sa[m].0 == r@[k].path@;
                    lemma_lt_ne_paths(sa, m, i as int);
                }
            }
            r.push(Change { path: copy_bytes(&e.path), old, new });
            proof {
                assert(r@[n as int].path@ == sa[i as int].0);
            }
        }
        proof {
            assert forall|m: int|
                0 <= m < i + 1 && touched(a@, b@, #[trigger] sa[m].0, false) implies exists|k: int|
                0 <= k < r@.len() && r@[k].path@ == sa[m].0 by {
                if m < i {
                    let k = choose|k: int| 0 <= k < r0.len() && r0[k].path@ == sa[m].0;
                    assert(r@[k] == r0[k]);
                } else {
                    assert(r@[r0.len() as int].path@ == sa[m].0);
                }
            }
            assert forall|k: int| #![trigger r@[k]] 0 <= k < r@.len() implies exists|m: int|
                0 <= m < i + 1 && #[trigger] sa[m].0 == r@[k].path@ by {
                if k < r0.len() {
                    assert(r@[k] == r0[k]);
                    let m = choose|m: int| 0 <= m < i && #[trigger] sa[m].0 == r0[k].path@;
                    assert(sa[m].0 == r@[k].path@);
                } else {
                    assert(sa[i as int].0 == r@[k].path@);
                }
            }
        }
        i = i + 1;
    }
    let ghost na = r@.len();
    let mut j: usize = 0;
    while j < b.entries.len()
        invariant
            a.wf(),
            b.wf(),
            sa == a.seq(),
            sb == b.seq(),
            j <= sb.len(),
            na <= r@.len(),
            forall|k: int|
                #![trigger r@[k]]
                0 <= k < r@.len() ==> touched(a@, b@, r@[k].path@, false) && file_view(r@[k].old) == at(
                    a@,
                    r@[k].path@,
                ) && file_view(r@[k].new) == at(b@, r@[k].path@),
            forall|k: int| #![trigger r@[k]] 0 <= k < na ==> a@.contains_key(r@[k].path@),
            forall|k: int|
                #![trigger r@[k]]
                na <= k < r@.len() ==> !a@.contains_key(r@[k].path@) && exists|m: int|
                    0 <= m < j && #[trigger] sb[m].0 == r@[k].path@,
            forall|k: int, l: int| 0 <= k < l < r@.len() ==> (#[trigger] r@[k]).path@ != (#[trigger] r@[l]).path@,
            forall|m: int|
                0 <= m < sa.len() && touched(a@, b@, #[trigger] sa[m].0, false) ==> exists|k: int|
                    0 <= k < r@.len() && r@[k].path@ == sa[m].0,
            forall|m: int|
                0 <= m < j && touched(a@, b@, #[trigger] sb[m].0, false) ==> exists|k: int|
                    0 <= k < r@.len() && r@[k].path@ == sb[m].0,
        decreases sb.len() - j,
    {
        let e = &b.entries[j];
        proof {
            lemma_map_of_value(sb, j as int);
        }
        let ghost r0 = r@;
        if a.find(e.path.as_slice()).is_none() {
            let ghost n = r@.len();
            proof {
                assert forall|k: int| 0 <= k < n implies r@[k].path@ != e.path@ by {
                    if k >= na {
                        let m = choose|m: int| 0 <= m < j && #[trigger] sb[m].0 == r@[k].path@;
                        lemma_lt_ne_paths(sb, m, j as int);
                    }
                }
            }
            r.push(Change { path: copy_bytes(&e.path), old: None, new: Some((e.mode, copy_bytes(&e.data))) });
            proof {
                assert(r@[n as int].path@ == sb[j as int].0);
            }
        }
        proof {
            assert forall|m: int|
                0 <= m < sa.len() && touched(a@, b@, #[trigger] sa[m].0, false) implies exists|k: int|
                0 <= k < r@.len() && r@[k].path@ == sa[m].0 by {
                let k = choose|k: int| 0 <= k < r0.len() && r0[k].path@ == sa[m].0;
                assert(r@[k] == r0[k]);
            }
            assert forall|m: int|
                0 <= m < j + 1 && touched(a@, b@, #[trigger] sb[m].0, false) implies exists|k: int|
                0 <= k < r@.len() && r@[k].path@ == sb[m].0 by {
                if m < j {
                    let k = choose|k: int| 0 <= k < r0.len() && r0[k].path@ == sb[m].0;
                    assert(r@[k] == r0[k]);
                } else if !a@.contains_key(sb[m].0) {
                    assert(r@[r0.len() as int].path@ == sb[m].0);
                } else {
                    lemma_map_of_domain(sa, sb[m].0);
                    let mm = choose|mm: int| 0 <= mm < sa.len() && #[trigger] sa[mm].0 == sb[m].0;
                    assert(touched(a@, b@, sa[mm].0, false));
                    let k = choose|k: int| 0 <= k < r0.len() && r0[k].path@ == sa[mm].0;
                    assert(r@[k] == r0[k]);
                }
            }
            assert forall|k: int| #![trigger r@[k]] na <= k < r@.len() implies exists|m: int|
                0 <= m < j + 1 && #[trigger] sb[m].0 == r@[k].path@ by {
                if k < r0.len() {
                    assert(r@[k] == r0[k]);
                    let m = choose|m: int| 0 <= m < j && #[trigger] sb[m].0 == r0[k].path@;
                    assert(sb[m].0 == r@[k].path@);
                } else {
                    assert(sb[j as int].0 == r@[k].path@);
                }
            }
        }
        j = j + 1;
    }
    proof {
        assert forall|p: Seq<u8>| #[trigger] touched(a@, b@, p, false) implies exists|i: int|
            0 <= i < r@.len() && r@[i].path@ == p by {
            lemma_map_of_domain(sa, p);
            lemma_map_of_domain(sb, p);
            if a@.contains_key(p) {
                let m = choose|m: int| 0 <= m < sa.len() && #[trigger] sa[m].0 == p;
                assert(touched(a@, b@, sa[m].0, false));
            } else {
                let m = choose|m: int| 0 <= m < sb.len() && #[trigger] sb[m].0 == p;
                assert(touched(a@, b@, sb[m].0, false));
            }
        }
    }
    r
}

} // verus!
