//! A set of subject identifiers, kept in ascending order so that walking
//! it, and the difference of two of them, always come out the same way.

use crate::registration::SubjectId;
use vstd::prelude::*;

verus! {

/// Each identifier of `s` is smaller than the ones after it.
pub open spec fn strictly_increasing(s: Seq<SubjectId>) -> bool {
    forall|i: int, j: int| 0 <= i < j < s.len() ==> s[i].0 < s[j].0
}

/// The identifiers that are in exactly one of `a` and `b`.
pub open spec fn symmetric_difference(a: Set<SubjectId>, b: Set<SubjectId>) -> Set<SubjectId> {
    a.difference(b).union(b.difference(a))
}

/// Two ascending sequences with the same members are the same sequence.
pub proof fn lemma_increasing_unique(s: Seq<SubjectId>, t: Seq<SubjectId>)
    requires
        strictly_increasing(s),
        strictly_increasing(t),
        s.to_set() == t.to_set(),
    ensures
        s == t,
    decreases s.len(),
{
    if s.len() == 0 {
        if t.len() > 0 {
            assert(t.contains(t[0]));
            assert(t.to_set().contains(t[0]));
            assert(s.contains(t[0]));
        }
        assert(s =~= t);
    } else {
        let x = s.last();
        assert(s.contains(x));
        assert(t.to_set().contains(x));
        assert(t.contains(x));
        let j = choose|j: int| 0 <= j < t.len() && t[j] == x;
        if j < t.len() - 1 {
            let y = t.last();
            assert(t.contains(y));
            assert(s.to_set().contains(y));
            assert(s.contains(y));
            let i = choose|i: int| 0 <= i < s.len() && s[i] == y;
            assert(s[i].0 <= x.0);
            assert(false);
        }
        let s1 = s.drop_last();
        let t1 = t.drop_last();
        assert forall|y: SubjectId| s1.to_set().contains(y) <==> t1.to_set().contains(y) by {
            if s1.contains(y) {
                let i = choose|i: int| 0 <= i < s1.len() && s1[i] == y;
                assert(s[i] == y);
                assert(s.contains(y));
                assert(t.to_set().contains(y));
                assert(t.contains(y));
                let k = choose|k: int| 0 <= k < t.len() && t[k] == y;
                assert(y.0 < x.0);
                assert(t1[k] == y);
            }
            if t1.contains(y) {
                let k = choose|k: int| 0 <= k < t1.len() && t1[k] == y;
                assert(t[k] == y);
                assert(t.contains(y));
                assert(s.to_set().contains(y));
                assert(s.contains(y));
                let i = choose|i: int| 0 <= i < s.len() && s[i] == y;
                assert(y.0 < x.0);
                assert(s1[i] == y);
            }
        }
        assert(s1.to_set() =~= t1.to_set());
        lemma_increasing_unique(s1, t1);
        assert(s =~= s1.push(x));
        assert(t =~= t1.push(x));
    }
}

/// A finite set of subject identifiers.
#[derive(Debug)]
pub struct SubjectSet {
    ids: Vec<SubjectId>,
}

impl View for SubjectSet {
    type V = Set<SubjectId>;

    closed spec fn view(&self) -> Set<SubjectId> {
        self.ids@.to_set()
    }
}

impl Clone for SubjectSet {
    fn clone(&self) -> (r: Self)
        ensures
            r@ == self@,
            r.elements() == self.elements(),
            r.wf() == self.wf(),
    {
        let mut ids: Vec<SubjectId> = Vec::new();
        let mut i: usize = 0;
        while i < self.ids.len()
            invariant
                i <= self.ids.len(),
                ids@ == self.ids@.take(i as int),
            decreases self.ids.len() - i,
        {
            ids.push(self.ids[i]);
            proof {
                assert(self.ids@.take(i + 1) =~= self.ids@.take(i as int).push(self.ids@[i as int]));
            }
            i += 1;
        }
        proof {
            assert(self.ids@.take(self.ids.len() as int) =~= self.ids@);
        }
        SubjectSet { ids }
    }
}

impl SubjectSet {
    /// The members in ascending order.
    pub closed spec fn elements(&self) -> Seq<SubjectId> {
        self.ids@
    }

    /// The members are stored in ascending order, each once.
    pub closed spec fn wf(&self) -> bool {
        strictly_increasing(self.ids@)
    }

    /// The ascending sequence of a well-formed set lists exactly its members.
    pub proof fn lemma_elements(&self)
        requires
            self.wf(),
        ensures
            strictly_increasing(self.elements()),
            self.elements().no_duplicates(),
            self.elements().to_set() == self@,
            self@.finite(),
            self@.len() == self.elements().len(),
    {
        vstd::seq_lib::seq_to_set_is_finite(self.ids@);
        self.ids@.unique_seq_to_set();
    }

    /// The empty set.
    pub fn new() -> (r: Self)
        ensures
            r.wf(),
            r@ == Set::<SubjectId>::empty(),
    {
        let r = SubjectSet { ids: Vec::new() };
        proof {
            assert(r.ids@.to_set() =~= Set::empty());
        }
        r
    }

    /// Number of members.
    pub fn len(&self) -> (n: usize)
        requires
            self.wf(),
        ensures
            n == self@.len(),
            n == self.elements().len(),
    {
        proof {
            self.lemma_elements();
        }
        self.ids.len()
    }

    pub fn is_empty(&self) -> (r: bool)
        requires
            self.wf(),
        ensures
            r == (self@ == Set::<SubjectId>::empty()),
    {
        proof {
            self.lemma_elements();
            if self.ids.len() == 0 {
                assert(self@ =~= Set::empty());
            } else {
                assert(self.ids@.contains(self.ids@[0]));
                assert(self@.contains(self.ids@[0]));
            }
        }
        self.ids.len() == 0
    }

    /// The member at position `i` of the ascending order.
    pub fn get(&self, i: usize) -> (id: SubjectId)
        requires
            self.wf(),
            i < self.elements().len(),
        ensures
            id == self.elements()[i as int],
            self@.contains(id),
    {
        proof {
            assert(self.ids@.contains(self.ids@[i as int]));
        }
        self.ids[i]
    }

    /// Where `id` is, or where it would have to be put.
    fn search(&self, id: SubjectId) -> (r: (bool, usize))
        requires
            self.wf(),
        ensures
            r.1 <= self.ids.len(),
            r.0 ==> r.1 < self.ids.len() && self.ids[r.1 as int] == id,
            r.0 == self@.contains(id),
            forall|i: int| 0 <= i < r.1 ==> self.ids[i].0 < id.0,
            forall|i: int| r.1 <= i < self.ids.len() ==> self.ids[i].0 >= id.0,
    {
        let mut lo: usize = 0;
        let mut hi: usize = self.ids.len();
        while lo < hi
            invariant
                lo <= hi <= self.ids.len(),
                strictly_increasing(self.ids@),
                forall|i: int| 0 <= i < lo ==> self.ids[i].0 < id.0,
                forall|i: int| hi <= i < self.ids.len() ==> self.ids[i].0 > id.0,
            decreases hi - lo,
        {
            let mid = lo + (hi - lo) / 2;
            let at = self.ids[mid].0;
            if at == id.0 {
                proof {
                    assert(self.ids@[mid as int] == id);
                    assert(self.ids@.contains(id));
                }
                return (true, mid);
            } else if at < id.0 {
                lo = mid + 1;
            } else {
                hi = mid;
            }
        }
        proof {
            if self.ids@.contains(id) {
                let i = choose|i: int| 0 <= i < self.ids.len() && self.ids[i] == id;
                assert(false);
            }
        }
        (false, lo)
    }

    /// Whether `id` is a member.
    pub fn contains(&self, id: SubjectId) -> (r: bool)
        requires
            self.wf(),
        ensures
            r == self@.contains(id),
    {
        self.search(id).0
    }

    /// Position of `id` in the ascending order, if it is a member.
    pub fn position(&self, id: SubjectId) -> (r: Option<usize>)
        requires
            self.wf(),
        ensures
            match r {
                Some(i) => i < self.elements().len() && self.elements()[i as int] == id,
                None => !self@.contains(id),
            },
    {
        let (found, at) = self.search(id);
        if found {
            Some(at)
        } else {
            None
        }
    }

    /// Adds `id`; says whether it was new, and at which position of the
    /// ascending order it stands.
    pub fn insert_at(&mut self, id: SubjectId) -> (r: (bool, usize))
        requires
            old(self).wf(),
        ensures
            final(self).wf(),
            final(self)@ == old(self)@.insert(id),
            r.0 == !old(self)@.contains(id),
            r.1 < final(self).elements().len(),
            r.0 ==> r.1 <= old(self).elements().len(),
            final(self).elements()[r.1 as int] == id,
            r.0 ==> final(self).elements() == old(self).elements().insert(r.1 as int, id),
            !r.0 ==> final(self).elements() == old(self).elements(),
    {
        let (found, at) = self.search(id);
        if found {
            proof {
                assert(self@.insert(id) =~= self@);
            }
            (false, at)
        } else {
            let ghost before = self.ids@;
            self.ids.insert(at, id);
            proof {
                let after = self.ids@;
                assert(after == before.insert(at as int, id));
                assert forall|i: int, j: int| 0 <= i < j < after.len() implies after[i].0
                    < after[j].0 by {
                    let bi = if i < at {
                        i
                    } else {
                        i - 1
                    };
                    let bj = if j < at {
                        j
                    } else {
                        j - 1
                    };
                    if i != at && j != at {
                        assert(after[i] == before[bi]);
                        assert(after[j] == before[bj]);
                    } else if i == at {
                        assert(after[j] == before[bj]);
                    } else {
                        assert(after[i] == before[bi]);
                    }
                }
                assert forall|x: SubjectId| after.to_set().contains(x) <==> before.to_set().insert(
                    id,
                ).contains(x) by {
                    if after.contains(x) {
                        let i = choose|i: int| 0 <= i < after.len() && after[i] == x;
                        if i < at {
                            assert(before[i] == x);
                        } else if i > at {
                            assert(before[i - 1] == x);
                        }
                    }
                    if before.contains(x) {
                        let i = choose|i: int| 0 <= i < before.len() && before[i] == x;
                        if i < at {
                            assert(after[i] == x);
                        } else {
                            assert(after[i + 1] == x);
                        }
                    }
                    if x == id {
                        assert(after[at as int] == x);
                    }
                }
                assert(after.to_set() =~= before.to_set().insert(id));
            }
            (true, at)
        }
    }

    /// Adds `id`; says whether it was new.
    pub fn insert(&mut self, id: SubjectId) -> (r: bool)
        requires
            old(self).wf(),
        ensures
            final(self).wf(),
            final(self)@ == old(self)@.insert(id),
            r == !old(self)@.contains(id),
    {
        self.insert_at(id).0
    }

    /// Takes `id` out; says whether it was a member.
    pub fn remove(&mut self, id: SubjectId) -> (r: bool)
        requires
            old(self).wf(),
        ensures
            final(self).wf(),
            final(self)@ == old(self)@.remove(id),
            r == old(self)@.contains(id),
    {
        let (found, at) = self.search(id);
        if !found {
            proof {
                assert(self@.remove(id) =~= self@);
            }
            return false;
        }
        let ghost before = self.ids@;
        self.ids.remove(at);
        proof {
            let after = self.ids@;
            assert(after == before.remove(at as int));
            assert forall|i: int, j: int| 0 <= i < j < after.len() implies after[i].0
                < after[j].0 by {
                let bi = if i < at {
                    i
                } else {
                    i + 1
                };
                let bj = if j < at {
                    j
                } else {
                    j + 1
                };
                assert(after[i] == before[bi]);
                assert(after[j] == before[bj]);
            }
            assert forall|x: SubjectId| after.to_set().contains(x) <==> before.to_set().remove(
                id,
            ).contains(x) by {
                if after.contains(x) {
                    let i = choose|i: int| 0 <= i < after.len() && after[i] == x;
                    let bi = if i < at {
                        i
                    } else {
                        i + 1
                    };
                    assert(before[bi] == x);
                    if bi < at {
                        assert(before[bi].0 < before[at as int].0);
                    } else {
                        assert(before[at as int].0 < before[bi].0);
                    }
                }
                if before.contains(x) && x != id {
                    let i = choose|i: int| 0 <= i < before.len() && before[i] == x;
                    if i < at {
                        assert(after[i] == x);
                    } else {
                        assert(after[i - 1] == x);
                    }
                }
            }
            assert(after.to_set() =~= before.to_set().remove(id));
        }
        true
    }

    /// The set of the identifiers listed in `v`.
    pub fn from_vec(v: &Vec<SubjectId>) -> (r: Self)
        ensures
            r.wf(),
            r@ == v@.to_set(),
    {
        Self::from_slice(v.as_slice())
    }

    /// The set of the identifiers listed in `v`.
    pub fn from_slice(v: &[SubjectId]) -> (r: Self)
        ensures
            r.wf(),
            r@ == v@.to_set(),
    {
        let mut r = SubjectSet::new();
        let mut i: usize = 0;
        proof {
            assert(v@.take(0).to_set() =~= Set::empty());
        }
        while i < v.len()
            invariant
                i <= v.len(),
                r.wf(),
                r@ == v@.take(i as int).to_set(),
            decreases v.len() - i,
        {
            r.insert(v[i]);
            proof {
                let a = v@.take(i as int);
                let b = v@.take(i + 1);
                assert(b =~= a.push(v@[i as int]));
                assert forall|x: SubjectId| b.to_set().contains(x) <==> a.to_set().insert(
                    v@[i as int],
                ).contains(x) by {
                    if b.contains(x) {
                        let k = choose|k: int| 0 <= k < b.len() && b[k] == x;
                        if k < i {
                            assert(a[k] == x);
                        }
                    }
                    if a.contains(x) {
                        let k = choose|k: int| 0 <= k < a.len() && a[k] == x;
                        assert(b[k] == x);
                    }
                    if x == v@[i as int] {
                        assert(b[i as int] == x);
                    }
                }
                assert(b.to_set() =~= a.to_set().insert(v@[i as int]));
            }
            i += 1;
        }
        proof {
            assert(v@.take(v.len() as int) =~= v@);
        }
        r
    }

    /// The members in ascending order.
    pub fn to_vec(&self) -> (r: Vec<SubjectId>)
        requires
            self.wf(),
        ensures
            r@ == self.elements(),
    {
        let c = self.clone();
        c.ids
    }

    /// The members of `self` that are not members of `other`.
    pub fn difference(&self, other: &SubjectSet) -> (r: SubjectSet)
        requires
            self.wf(),
            other.wf(),
        ensures
            r.wf(),
            r@ == self@.difference(other@),
    {
        let mut out: Vec<SubjectId> = Vec::new();
        let mut i: usize = 0;
        while i < self.ids.len()
            invariant
                i <= self.ids.len(),
                self.wf(),
                other.wf(),
                strictly_increasing(out@),
                forall|x: SubjectId|
                    out@.contains(x) <==> (self.ids@.take(i as int).contains(x) && !other@.contains(
                        x,
                    )),
            decreases self.ids.len() - i,
        {
            let id = self.ids[i];
            let ghost prev = out@;
            let keep = !other.contains(id);
            if keep {
                proof {
                    let a = self.ids@.take(i as int);
                    assert forall|k: int| 0 <= k < prev.len() implies prev[k].0 < id.0 by {
                        assert(prev.contains(prev[k]));
                        assert(a.contains(prev[k]));
                        let j = choose|j: int| 0 <= j < a.len() && a[j] == prev[k];
                        assert(self.ids@[j] == prev[k]);
                    }
                }
                out.push(id);
            }
            proof {
                let a = self.ids@.take(i as int);
                let b = self.ids@.take(i + 1);
                assert(b =~= a.push(id));
                assert forall|x: SubjectId|
                    out@.contains(x) <==> (b.contains(x) && !other@.contains(x)) by {
                    if out@.contains(x) {
                        let k = choose|k: int| 0 <= k < out.len() && out[k] == x;
                        if k < prev.len() {
                            assert(prev[k] == x);
                            assert(prev.contains(x));
                            let j = choose|j: int| 0 <= j < a.len() && a[j] == x;
                            assert(b[j] == x);
                        } else {
                            assert(b[i as int] == x);
                        }
                    }
                    if b.contains(x) && !other@.contains(x) {
                        let j = choose|j: int| 0 <= j < b.len() && b[j] == x;
                        if j < i {
                            assert(a[j] == x);
                            assert(a.contains(x));
                            assert(prev.contains(x));
                            let k = choose|k: int| 0 <= k < prev.len() && prev[k] == x;
                            assert(out[k] == x);
                        } else {
                            assert(out[out.len() - 1] == x);
                        }
                    }
                }
            }
            i += 1;
        }
        let r = SubjectSet { ids: out };
        proof {
            assert(self.ids@.take(self.ids.len() as int) =~= self.ids@);
            assert(r@ =~= self@.difference(other@));
        }
        r
    }

    /// The identifiers that are members of exactly one of the two sets.
    pub fn symmetric_difference(&self, other: &SubjectSet) -> (r: SubjectSet)
        requires
            self.wf(),
            other.wf(),
        ensures
            r.wf(),
            r@ == symmetric_difference(self@, other@),
    {
        let mut r = self.difference(other);
        let back = other.difference(self);
        let mut i: usize = 0;
        proof {
            assert(back.ids@.take(0).to_set() =~= Set::empty());
            assert(r@.union(Set::empty()) =~= r@);
        }
        let ghost left = r@;
        while i < back.ids.len()
            invariant
                i <= back.ids.len(),
                r.wf(),
                r@ == left.union(back.ids@.take(i as int).to_set()),
            decreases back.ids.len() - i,
        {
            r.insert(back.ids[i]);
            proof {
                let a = back.ids@.take(i as int);
                let b = back.ids@.take(i + 1);
                let x0 = back.ids@[i as int];
                assert(b =~= a.push(x0));
                assert forall|x: SubjectId| b.to_set().contains(x) <==> a.to_set().insert(
                    x0,
                ).contains(x) by {
                    if b.contains(x) {
                        let k = choose|k: int| 0 <= k < b.len() && b[k] == x;
                        if k < i {
                            assert(a[k] == x);
                        }
                    }
                    if a.contains(x) {
                        let k = choose|k: int| 0 <= k < a.len() && a[k] == x;
                        assert(b[k] == x);
                    }
                    if x == x0 {
                        assert(b[i as int] == x);
                    }
                }
                assert(r@ =~= left.union(b.to_set()));
            }
            i += 1;
        }
        proof {
            assert(back.ids@.take(back.ids.len() as int) =~= back.ids@);
        }
        r
    }
}

} // verus!
