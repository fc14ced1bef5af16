//! Walking the commit graph: the first-parent history of a commit, and the
//! nearest common ancestor of two commits.
use vstd::prelude::*;
use crate::bytes::{bytes_eq, copy_bytes};
use crate::object::{ids_view, Object};
use crate::repo::{commit_at, Objects, Repository};

verus! {

/// The commits met from `id` by following first parents, `id` first, at most
/// `fuel` of them. With `fuel` the number of stored objects this is the whole
/// first-parent history, since a history never repeats a commit.
pub open spec fn first_parent_chain(objs: Objects, id: Seq<u8>, fuel: nat) -> Seq<Seq<u8>>
    decreases fuel,
{
    if fuel == 0 {
        Seq::empty()
    } else {
        match commit_at(objs, id) {
            None => Seq::empty(),
            Some(c) => seq![id] + if c.parents.len() > 0 {
                first_parent_chain(objs, c.parents[0], (fuel - 1) as nat)
            } else {
                Seq::empty()
            },
        }
    }
}

/// The part of `s` before the first id (at position `k` or later) that
/// repeats an earlier one.
pub open spec fn distinct_prefix(s: Seq<Seq<u8>>, k: nat) -> Seq<Seq<u8>>
    decreases s.len() - k,
{
    if k >= s.len() || s.take(k as int).contains(s[k as int]) {
        s.take(k as int)
    } else {
        distinct_prefix(s, k + 1)
    }
}

/// The first-parent history of `id`, newest first, up to the first commit
/// that would repeat (none does in a history built by commits).
pub open spec fn history(objs: Objects, id: Seq<u8>, fuel: nat) -> Seq<Seq<u8>> {
    distinct_prefix(first_parent_chain(objs, id, fuel), 0)
}

/// Whether `v` holds `id`.
fn holds_id(v: &Vec<Vec<u8>>, id: &[u8]) -> (r: bool)
    ensures
        r == ids_view(v@).contains(id@),
{
    let mut i: usize = 0;
    while i < v.len()
        invariant
            i <= v@.len(),
            forall|k: int| 0 <= k < i ==> ids_view(v@)[k] != id@,
        decreases v@.len() - i,
    {
        if bytes_eq(v[i].as_slice(), id) {
            assert(ids_view(v@)[i as int] == id@);
            return true;
        }
        i = i + 1;
    }
    false
}

/// The ids of `v` up to the first one that repeats an earlier one.
fn cut_at_repeat(v: Vec<Vec<u8>>) -> (r: Vec<Vec<u8>>)
    ensures
        ids_view(r@) == distinct_prefix(ids_view(v@), 0),
        ids_view(r@).no_duplicates(),
{
    let ghost s = ids_view(v@);
    let mut out: Vec<Vec<u8>> = Vec::new();
    let mut k: usize = 0;
    assert(s.take(0) =~= ids_view(out@));
    while k < v.len()
        invariant
            s == ids_view(v@),
            k <= v@.len(),
            ids_view(out@) == s.take(k as int),
            ids_view(out@).no_duplicates(),
            distinct_prefix(s, k as nat) == distinct_prefix(s, 0),
        decreases v@.len() - k,
    {
        if holds_id(&out, v[k].as_slice()) {
            return out;
        }
        let ghost before = ids_view(out@);
        out.push(copy_bytes(&v[k]));
        assert(ids_view(out@) =~= before.push(s[k as int]));
        assert(s.take(k + 1) =~= s.take(k as int).push(s[k as int]));
        k = k + 1;
    }
    assert(s.take(k as int) =~= s);
    out
}

/// The first commit of `a` that `b` also holds.
pub open spec fn first_common(a: Seq<Seq<u8>>, b: Seq<Seq<u8>>) -> Option<Seq<u8>>
    decreases a.len(),
{
    if a.len() == 0 {
        None
    } else if b.contains(a[0]) {
        Some(a[0])
    } else {
        first_common(a.drop_first(), b)
    }
}

/// The merge base of two commits: the first commit of `a`'s first-parent
/// history that lies in `b`'s.
pub open spec fn merge_base(objs: Objects, a: Seq<u8>, b: Seq<u8>, fuel: nat) -> Option<Seq<u8>> {
    first_common(history(objs, a, fuel), history(objs, b, fuel))
}

/// A walk along a first-parent history, one commit at a time: the commit to
/// yield next, and how many more may be yielded.
pub struct RevWalk {
    pub next: Option<Vec<u8>>,
    pub fuel: usize,
}

impl RevWalk {
    /// The commits this walk has still to yield.
    pub open spec fn rest(&self, objs: Objects) -> Seq<Seq<u8>> {
        match self.next {
            Some(id) => first_parent_chain(objs, id@, self.fuel as nat),
            None => Seq::empty(),
        }
    }

    /// Yields the next commit of the walk, or `None` when it is over.
    pub fn next_commit(&mut self, repo: &Repository) -> (r: Option<Vec<u8>>)
        requires
            repo.wf(),
        ensures
            match r {
                Some(id) => old(self).rest(repo.objects@) == seq![id@] + final(self).rest(repo.objects@),
                None => old(self).rest(repo.objects@) == Seq::<Seq<u8>>::empty(),
            },
    {
        let cur = match &self.next {
            Some(id) => copy_bytes(id),
            None => {
                return None;
            },
        };
        if self.fuel == 0 {
            self.next = None;
            return None;
        }
        match repo.objects.get(cur.as_slice()) {
            Some(Object::Commit(c)) => {
                if c.parents.len() > 0 {
                    assert(c.parents@[0]@ == ids_view(c.parents@)[0]);
                    self.next = Some(copy_bytes(&c.parents[0]));
                } else {
                    self.next = None;
                }
                self.fuel = self.fuel - 1;
                proof {
                    assert(old(self).rest(repo.objects@) =~= seq![cur@] + self.rest(repo.objects@));
                }
                Some(cur)
            },
            _ => {
                self.next = None;
                None
            },
        }
    }
}

impl Repository {
    /// A walk along the first-parent history of `start`.
    pub fn rev_walk(&self, start: &[u8]) -> (r: RevWalk)
        requires
            self.wf(),
        ensures
            r.rest(self.objects@) == first_parent_chain(self.objects@, start@, self.objects.ids@.len() as nat),
    {
        RevWalk { next: Some(crate::bytes::to_bytes(start)), fuel: self.objects.ids.len() }
    }

    /// The first-parent history of `start`, newest first, no commit twice.
    pub fn walk(&self, start: &[u8]) -> (r: Vec<Vec<u8>>)
        requires
            self.wf(),
        ensures
            ids_view(r@) == history(self.objects@, start@, self.objects.ids@.len() as nat),
            ids_view(r@).no_duplicates(),
    {
        cut_at_repeat(self.walk_chain(start))
    }

    /// The first-parent chain of `start`, newest first.
    fn walk_chain(&self, start: &[u8]) -> (r: Vec<Vec<u8>>)
        requires
            self.wf(),
        ensures
            ids_view(r@) == first_parent_chain(self.objects@, start@, self.objects.ids@.len() as nat),
    {
        let ghost total = first_parent_chain(self.objects@, start@, self.objects.ids@.len() as nat);
        let mut out: Vec<Vec<u8>> = Vec::new();
        let mut cur: Vec<u8> = crate::bytes::to_bytes(start);
        let mut fuel: usize = self.objects.ids.len();
        let mut done = false;
        while !done
            invariant
                self.wf(),
                done ==> ids_view(out@) == total,
                !done ==> ids_view(out@) + first_parent_chain(self.objects@, cur@, fuel as nat) == total,
            decreases fuel + if done { 0int } else { 1int },
        {
            if fuel == 0 {
                assert(ids_view(out@) =~= ids_view(out@) + Seq::<Seq<u8>>::empty());
                done = true;
            } else {
                match self.objects.get(cur.as_slice()) {
                    Some(Object::Commit(c)) => {
                        let ghost rest = first_parent_chain(self.objects@, cur@, fuel as nat);
                        let ghost before = ids_view(out@);
                        out.push(copy_bytes(&cur));
                        assert(ids_view(out@) =~= before.push(cur@));
                        if c.parents.len() > 0 {
                            let next = copy_bytes(&c.parents[0]);
                            assert(next@ == ids_view(c.parents@)[0]);
                            cur = next;
                            fuel = fuel - 1;
                            assert(ids_view(out@) + first_parent_chain(self.objects@, cur@, fuel as nat)
                                =~= before + rest);
                        } else {
                            assert(ids_view(out@) =~= before + rest);
                            done = true;
                        }
                    },
                    _ => {
                        assert(ids_view(out@) =~= ids_view(out@) + Seq::<Seq<u8>>::empty());
                        done = true;
                    },
                }
            }
        }
        out
    }

    /// The first-parent history of HEAD, newest first, no commit twice;
    /// empty on an unborn branch.
    pub fn log(&self) -> (r: Vec<Vec<u8>>)
        requires
            self.wf(),
        ensures
            ids_view(r@) == match self.head_id() {
                Some(h) => history(self.objects@, h, self.objects.ids@.len() as nat),
                None => Seq::empty(),
            },
            ids_view(r@).no_duplicates(),
    {
        match self.head_commit() {
            Some(h) => self.walk(h.as_slice()),
            None => {
                let r: Vec<Vec<u8>> = Vec::new();
                assert(ids_view(r@) =~= Seq::<Seq<u8>>::empty());
                r
            },
        }
    }

    /// The merge base of the commits `a` and `b`, if their histories meet.
    pub fn merge_base(&self, a: &[u8], b: &[u8]) -> (r: Option<Vec<u8>>)
        requires
            self.wf(),
        ensures
            r is None <==> merge_base(self.objects@, a@, b@, self.objects.ids@.len() as nat) is None,
            r matches Some(m) ==> merge_base(self.objects@, a@, b@, self.objects.ids@.len() as nat)
                == Some(m@),
    {
        let ca = self.walk(a);
        let cb = self.walk(b);
        let ghost sa = ids_view(ca@);
        let ghost sb = ids_view(cb@);
        let mut i: usize = 0;
        assert(sa.skip(0) =~= sa);
        while i < ca.len()
            invariant
                sa == ids_view(ca@),
                sb == ids_view(cb@),
                sa.len() == ca@.len(),
                sb.len() == cb@.len(),
                first_common(sa, sb) == merge_base(self.objects@, a@, b@, self.objects.ids@.len() as nat),
                i <= ca@.len(),
                first_common(sa, sb) == first_common(sa.skip(i as int), sb),
            decreases ca@.len() - i,
        {
            let mut j: usize = 0;
            let mut found = false;
            while j < cb.len()
                invariant
                    sb == ids_view(cb@),
                    sa == ids_view(ca@),
                    sa.len() == ca@.len(),
                    sb.len() == cb@.len(),
                    i < ca@.len(),
                    j <= cb@.len(),
                    found ==> sb.contains(sa[i as int]),
                    !found ==> forall|k: int| 0 <= k < j ==> sb[k] != sa[i as int],
                decreases cb@.len() - j,
            {
                if !found && bytes_eq(cb[j].as_slice(), ca[i].as_slice()) {
                    assert(sb[j as int] == sa[i as int]);
                    found = true;
                }
                j = j + 1;
            }
            assert(sa.skip(i as int)[0] == sa[i as int]);
            if found {
                let m = copy_bytes(&ca[i]);
                assert(m@ == sa[i as int]);
                return Some(m);
            }
            assert(!sb.contains(sa[i as int]));
            assert(sa.skip(i as int).drop_first() =~= sa.skip(i + 1));
            i = i + 1;
        }
        assert(sa.skip(i as int).len() == 0);
        None
    }
}

} // verus!
