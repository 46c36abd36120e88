//! The selection a student is editing: for every subject of the catalog,
//! whether it is selected now and whether it was when the selection was
//! last saved, and the weekly grid of the subjects selected now.

use crate::class::{meetings_cover, meetings_fit_grid, Class};
use crate::registration::schedule_grid::{collides, in_grid, ScheduleGrid};
use crate::registration::selection_view::{
    catalog_entries, choice_ids, entry_of, grid_of, group_entries, lemma_catalog_entries_start,
    lemma_grid_of,
    lemma_operations_keep_wf, lemma_with_entries_wf, occupies, EntryView, StoreView,
};
use crate::registration::subject_set::{strictly_increasing, SubjectSet};
use crate::registration::{catalog_fits_grid, catalog_view, SubjectChoices, SubjectId};
use vstd::prelude::*;

verus! {

/// What the selection holds of one subject.
struct SelectionEntry {
    id: SubjectId,
    classes: Vec<Class>,
    is_selected: bool,
    initial_selected: bool,
    subject_idx: usize,
}

impl View for SelectionEntry {
    type V = EntryView;

    closed spec fn view(&self) -> EntryView {
        EntryView {
            classes: self.classes@,
            is_selected: self.is_selected,
            initial_selected: self.initial_selected,
            subject_idx: self.subject_idx as int,
        }
    }
}

spec fn ids_of(es: Seq<SelectionEntry>) -> Seq<SubjectId> {
    es.map_values(|e: SelectionEntry| e.id)
}

spec fn entries_map(es: Seq<SelectionEntry>) -> Map<SubjectId, EntryView> {
    Map::new(
        |id: SubjectId| ids_of(es).contains(id),
        |id: SubjectId| es[ids_of(es).index_of(id)]@,
    )
}

/// In a list in ascending order, each entry is what the map holds of its
/// subject.
proof fn lemma_entry_at(es: Seq<SelectionEntry>, i: int)
    requires
        strictly_increasing(ids_of(es)),
        0 <= i < es.len(),
    ensures
        ids_of(es).index_of(es[i].id) == i,
        entries_map(es).contains_key(es[i].id),
        entries_map(es)[es[i].id] == es[i]@,
{
    let ids = ids_of(es);
    assert(ids[i] == es[i].id);
    let k = ids.index_of(es[i].id);
    assert(0 <= k < ids.len() && ids[k] == es[i].id);
    if k < i {
        assert(ids[k].0 < ids[i].0);
    }
    if i < k {
        assert(ids[i].0 < ids[k].0);
    }
}

/// A subject that the map knows stands somewhere in the list.
proof fn lemma_entry_known(es: Seq<SelectionEntry>, id: SubjectId) -> (i: int)
    requires
        strictly_increasing(ids_of(es)),
        entries_map(es).contains_key(id),
    ensures
        0 <= i < es.len(),
        es[i].id == id,
        entries_map(es)[id] == es[i]@,
{
    let ids = ids_of(es);
    let i = ids.index_of(id);
    assert(0 <= i < ids.len() && ids[i] == id);
    lemma_entry_at(es, i);
    i
}

/// Replacing one entry by another for the same subject replaces what the
/// map holds of that subject, and nothing else.
proof fn lemma_entry_replaced(es: Seq<SelectionEntry>, es2: Seq<SelectionEntry>, i: int)
    requires
        strictly_increasing(ids_of(es)),
        0 <= i < es.len(),
        es2.len() == es.len(),
        es2[i].id == es[i].id,
        forall|j: int| 0 <= j < es.len() && j != i ==> es2[j] == es[j],
    ensures
        ids_of(es2) == ids_of(es),
        entries_map(es2) == entries_map(es).insert(es[i].id, es2[i]@),
{
    assert(ids_of(es2) =~= ids_of(es));
    assert forall|id: SubjectId| #[trigger]
        entries_map(es2).contains_key(id) implies entries_map(es2)[id] == entries_map(es).insert(
        es[i].id,
        es2[i]@,
    )[id] by {
        let k = lemma_entry_known(es2, id);
        lemma_entry_at(es, k);
        if k != i {
            assert(ids_of(es)[k].0 != ids_of(es)[i].0);
        }
    }
    assert forall|id: SubjectId|
        entries_map(es2).contains_key(id) <==> entries_map(es).insert(
            es[i].id,
            es2[i]@,
        ).contains_key(id) by {
        if id == es[i].id {
            assert(ids_of(es)[i] == id);
        }
    }
    assert(entries_map(es2) =~= entries_map(es).insert(es[i].id, es2[i]@));
}

/// Each entry of the list fits the grid.
spec fn entries_fit_grid(es: Seq<SelectionEntry>) -> bool {
    forall|i: int| 0 <= i < es.len() ==> meetings_fit_grid((#[trigger] es[i]).classes@)
}

/// Position of `id` in a list in ascending order, if it is there; else the
/// position where it would have to be put.
fn search(entries: &Vec<SelectionEntry>, id: SubjectId) -> (r: (bool, usize))
    requires
        strictly_increasing(ids_of(entries@)),
    ensures
        r.1 <= entries.len(),
        r.0 ==> r.1 < entries.len() && entries[r.1 as int].id == id,
        r.0 == entries_map(entries@).contains_key(id),
        !r.0 ==> forall|i: int| 0 <= i < r.1 ==> ids_of(entries@)[i].0 < id.0,
        !r.0 ==> forall|i: int| r.1 <= i < entries.len() ==> ids_of(entries@)[i].0 > id.0,
{
    let ghost ids = ids_of(entries@);
    let mut lo: usize = 0;
    let mut hi: usize = entries.len();
    while lo < hi
        invariant
            lo <= hi <= entries.len(),
            ids == ids_of(entries@),
            strictly_increasing(ids),
            forall|i: int| 0 <= i < lo ==> ids[i].0 < id.0,
            forall|i: int| hi <= i < entries.len() ==> ids[i].0 > id.0,
        decreases hi - lo,
    {
        let mid = lo + (hi - lo) / 2;
        let at = entries[mid].id.0;
        assert(ids[mid as int] == entries[mid as int].id);
        if at == id.0 {
            return (true, mid);
        } else if at < id.0 {
            lo = mid + 1;
        } else {
            hi = mid;
        }
    }
    proof {
        if ids.contains(id) {
            let i = choose|i: int| 0 <= i < ids.len() && ids[i] == id;
            assert(false);
        }
    }
    (false, lo)
}

/// Puts `e` into a list in ascending order: in place of the entry for the
/// same subject if there is one, else where the order wants it.
fn put_entry(entries: &mut Vec<SelectionEntry>, e: SelectionEntry)
    requires
        strictly_increasing(ids_of(old(entries)@)),
    ensures
        strictly_increasing(ids_of(final(entries)@)),
        entries_map(final(entries)@) == entries_map(old(entries)@).insert(e.id, e@),
{
    let ghost before = entries@;
    let ghost id = e.id;
    let ghost ev = e@;
    let (found, at) = search(entries, e.id);
    if found {
        entries[at] = e;
        proof {
            lemma_entry_replaced(before, entries@, at as int);
        }
    } else {
        entries.insert(at, e);
        proof {
            let after = entries@;
            assert(after == before.insert(at as int, e));
            let ids = ids_of(after);
            let ids0 = ids_of(before);
            assert forall|i: int, j: int| 0 <= i < j < ids.len() implies ids[i].0 < ids[j].0 by {
                let bi = if i < at {
                    i
                } else {
                    i - 1
                };
                let bj = if j < at {
                    j
                } else {
                    j - 1
                };
                if i != at {
                    assert(after[i] == before[bi]);
                    assert(ids[i] == ids0[bi]);
                }
                if j != at {
                    assert(after[j] == before[bj]);
                    assert(ids[j] == ids0[bj]);
                }
            }
            assert forall|x: SubjectId| #[trigger]
                entries_map(after).contains_key(x) <==> entries_map(before).insert(
                    id,
                    ev,
                ).contains_key(x) by {
                if ids.contains(x) {
                    let k = choose|k: int| 0 <= k < ids.len() && ids[k] == x;
                    if k < at {
                        assert(ids0[k] == x);
                    } else if k > at {
                        assert(after[k] == before[k - 1]);
                        assert(ids0[k - 1] == x);
                    }
                }
                if ids0.contains(x) {
                    let k = choose|k: int| 0 <= k < ids0.len() && ids0[k] == x;
                    if k < at {
                        assert(after[k] == before[k]);
                        assert(ids[k] == x);
                    } else {
                        assert(after[k + 1] == before[k]);
                        assert(ids[k + 1] == x);
                    }
                }
                if x == id {
                    assert(ids[at as int] == x);
                }
            }
            assert forall|x: SubjectId| #[trigger]
                entries_map(after).contains_key(x) implies entries_map(after)[x] == entries_map(
                before,
            ).insert(id, ev)[x] by {
                let k = lemma_entry_known(after, x);
                if k < at {
                    assert(after[k] == before[k]);
                    lemma_entry_at(before, k);
                } else if k > at {
                    assert(after[k] == before[k - 1]);
                    lemma_entry_at(before, k - 1);
                }
            }
            assert(entries_map(after) =~= entries_map(before).insert(id, ev));
        }
    }
}

/// Each subject that `m` knows is a choice of one of the first `n` courses
/// of the catalog, the one that its entry names, and fits the grid.
spec fn entries_known(m: Map<SubjectId, EntryView>, catalog: Seq<crate::registration::ChoicesView>, n: int) -> bool {
    forall|x: SubjectId| #[trigger]
        m.contains_key(x) ==> {
            &&& 0 <= m[x].subject_idx < n
            &&& choice_ids(catalog[m[x].subject_idx]).contains(x)
            &&& meetings_fit_grid(m[x].classes)
        }
}

/// The grid that holds exactly the selected entries of the list.
fn build_grid(entries: &Vec<SelectionEntry>) -> (g: ScheduleGrid)
    requires
        strictly_increasing(ids_of(entries@)),
        entries_fit_grid(entries@),
    ensures
        g.wf(),
        g@ == grid_of(entries_map(entries@)),
{
    let mut g = ScheduleGrid::new();
    let mut i: usize = 0;
    while i < entries.len()
        invariant
            i <= entries.len(),
            strictly_increasing(ids_of(entries@)),
            entries_fit_grid(entries@),
            g.wf(),
            forall|d: int, p: int, x: SubjectId|
                in_grid(d, p) ==> (#[trigger] g@[d][p].contains(x) <==> exists|k: int|
                    0 <= k < i && (#[trigger] entries[k]).id == x && entries[k].is_selected
                        && meetings_cover(entries[k].classes@, d, p)),
        decreases entries.len() - i,
    {
        let ghost before = g@;
        if entries[i].is_selected {
            g.occupy(entries[i].id, &entries[i].classes);
        }
        proof {
            let e = entries[i as int];
            assert forall|d: int, p: int, x: SubjectId| in_grid(d, p) implies (#[trigger] g@[d][p].contains(
                x,
            ) <==> exists|k: int|
                0 <= k < i + 1 && (#[trigger] entries[k]).id == x && entries[k].is_selected
                    && meetings_cover(entries[k].classes@, d, p)) by {
                let here = x == e.id && e.is_selected && meetings_cover(e.classes@, d, p);
                assert(g@[d][p].contains(x) <==> (before[d][p].contains(x) || here));
                if before[d][p].contains(x) {
                    let k = choose|k: int|
                        0 <= k < i && (#[trigger] entries[k]).id == x && entries[k].is_selected
                            && meetings_cover(entries[k].classes@, d, p);
                    assert(0 <= k < i + 1);
                }
                if here {
                    assert(entries[i as int].id == x);
                }
            }
        }
        i += 1;
    }
    proof {
        g.lemma_view_shaped();
        let m = entries_map(entries@);
        assert forall|d: int, p: int, x: SubjectId| in_grid(d, p) implies (#[trigger] g@[d][p].contains(
            x,
        ) <==> occupies(m, x, d, p)) by {
            if g@[d][p].contains(x) {
                let k = choose|k: int|
                    0 <= k < entries.len() && (#[trigger] entries[k]).id == x
                        && entries[k].is_selected && meetings_cover(entries[k].classes@, d, p);
                lemma_entry_at(entries@, k);
            }
            if occupies(m, x, d, p) {
                let k = lemma_entry_known(entries@, x);
                assert(entries[k].id == x);
            }
        }
        lemma_grid_of(m, g@);
    }
    g
}

/// The selection a student is editing.
pub struct SubjectsSignal {
    entries: Vec<SelectionEntry>,
    collision_map: ScheduleGrid,
    subjects_choices: Vec<SubjectChoices>,
}

impl View for SubjectsSignal {
    type V = StoreView;

    closed spec fn view(&self) -> StoreView {
        StoreView {
            entries: entries_map(self.entries@),
            order: ids_of(self.entries@),
            catalog: catalog_view(self.subjects_choices@),
            grid: self.collision_map@,
        }
    }
}

impl SubjectsSignal {
    /// The selection is consistent, and so is what it is stored in.
    pub closed spec fn wf(&self) -> bool {
        &&& self.collision_map.wf()
        &&& self@.wf()
    }

    /// What a well-formed selection holds is consistent.
    pub proof fn lemma_wf(&self)
        requires
            self.wf(),
        ensures
            self@.wf(),
    {
    }

    proof fn lemma_fits(&self)
        requires
            self.wf(),
        ensures
            entries_fit_grid(self.entries@),
            forall|i: int|
                0 <= i < self.entries.len() ==> (#[trigger] self.entries[i]).subject_idx
                    < self.subjects_choices.len(),
    {
        assert forall|i: int| 0 <= i < self.entries.len() implies meetings_fit_grid(
            (#[trigger] self.entries[i]).classes@,
        ) && self.entries[i].subject_idx < self.subjects_choices.len() by {
            lemma_entry_at(self.entries@, i);
            assert(self@.entries.contains_key(self.entries[i].id));
        }
    }

    /// Whether `subject` is known and selected now.
    pub fn is_selected(&self, subject: SubjectId) -> (r: bool)
        requires
            self.wf(),
        ensures
            r == self@.is_selected(subject),
    {
        let (found, at) = search(&self.entries, subject);
        if found {
            proof {
                lemma_entry_at(self.entries@, at as int);
            }
            self.entries[at].is_selected
        } else {
            false
        }
    }

    /// Whether `subject` is known and selected now; the same as
    /// `is_selected`, for callers that read without watching.
    pub fn is_selected_untracked(&self, subject: SubjectId) -> (r: bool)
        requires
            self.wf(),
        ensures
            r == self@.is_selected(subject),
    {
        self.is_selected(subject)
    }

    /// Whether `subject` is known and is selected now but was not when
    /// the selection was last saved, or the other way round.
    pub fn has_changed(&self, subject: SubjectId) -> (r: bool)
        requires
            self.wf(),
        ensures
            r == self@.has_changed(subject),
    {
        let (found, at) = search(&self.entries, subject);
        if found {
            proof {
                lemma_entry_at(self.entries@, at as int);
            }
            self.entries[at].is_selected != self.entries[at].initial_selected
        } else {
            false
        }
    }

    /// Whether `subject` is selected and shares one of the cells that it
    /// takes with another selected subject.
    pub fn has_collisions(&self, subject: SubjectId) -> (r: bool)
        requires
            self.wf(),
        ensures
            r == self@.has_collisions(subject),
    {
        let (found, at) = search(&self.entries, subject);
        if found {
            proof {
                lemma_entry_at(self.entries@, at as int);
                self.lemma_fits();
            }
            let r = self.collision_map.has_collision(subject, &self.entries[at].classes);
            proof {
                let s = self@;
                let ms = self.entries[at as int].classes@;
                if r {
                    let (d, p) = choose|d: int, p: int|
                        in_grid(d, p) && meetings_cover(ms, d, p)
                            && crate::registration::schedule_grid::shared_cell(
                            #[trigger] s.grid[d][p],
                            subject,
                        );
                    let other = choose|other: SubjectId|
                        other != subject && s.grid[d][p].contains(other);
                    assert(occupies(s.entries, subject, d, p));
                    assert(occupies(s.entries, other, d, p));
                }
                if s.has_collisions(subject) {
                    let (d, p, other) = choose|d: int, p: int, other: SubjectId|
                        in_grid(d, p) && other != subject && #[trigger] occupies(
                            s.entries,
                            subject,
                            d,
                            p,
                        ) && #[trigger] occupies(s.entries, other, d, p);
                    assert(s.grid[d][p].contains(subject));
                    assert(s.grid[d][p].contains(other));
                    assert(crate::registration::schedule_grid::shared_cell(s.grid[d][p], subject));
                    assert(collides(s.grid, subject, ms));
                }
            }
            r
        } else {
            proof {
                let s = self@;
                if s.has_collisions(subject) {
                    let (d, p, other) = choose|d: int, p: int, other: SubjectId|
                        in_grid(d, p) && other != subject && #[trigger] occupies(
                            s.entries,
                            subject,
                            d,
                            p,
                        ) && #[trigger] occupies(s.entries, other, d, p);
                    assert(false);
                }
            }
            false
        }
    }

    fn deselect_helper(&mut self, id: SubjectId)
        requires
            old(self).wf(),
        ensures
            final(self).wf(),
            final(self)@ == old(self)@.deselect(id),
            final(self).subjects_choices == old(self).subjects_choices,
    {
        let (found, at) = search(&self.entries, id);
        if !found {
            return ;
        }
        proof {
            lemma_entry_at(self.entries@, at as int);
            self.lemma_fits();
        }
        if !self.entries[at].is_selected {
            return ;
        }
        let ghost s = self@;
        self.entries[at].is_selected = false;
        self.collision_map.vacate(id, &self.entries[at].classes);
        proof {
            lemma_entry_replaced(old(self).entries@, self.entries@, at as int);
            let m = s.entries.insert(id, s.entries[id].with_selected(false));
            assert(self@.entries == m);
            self.collision_map.lemma_view_shaped();
            assert forall|d: int, p: int, x: SubjectId| in_grid(d, p) implies (
            #[trigger] self@.grid[d][p].contains(x) <==> occupies(m, x, d, p)) by {
                assert(s.grid[d][p].contains(x) <==> occupies(s.entries, x, d, p));
            }
            lemma_grid_of(m, self@.grid);
            assert(self@ == s.deselect(id));
            lemma_operations_keep_wf(s, id);
        }
    }

    /// Deselects `subject`: nothing changes if it is unknown or not
    /// selected; else it is selected no longer and leaves the grid.
    pub fn deselect(&mut self, subject: SubjectId)
        requires
            old(self).wf(),
        ensures
            final(self).wf(),
            final(self)@ == old(self)@.deselect(subject),
    {
        self.deselect_helper(subject);
    }

    /// Selects `subject`: nothing changes if it is unknown or selected
    /// already; else it becomes selected and enters the grid, and every
    /// other choice of its course is deselected.
    pub fn select(&mut self, subject: SubjectId)
        requires
            old(self).wf(),
        ensures
            final(self).wf(),
            final(self)@ == old(self)@.select(subject),
    {
        let (found, at) = search(&self.entries, subject);
        if !found {
            return ;
        }
        proof {
            lemma_entry_at(self.entries@, at as int);
            self.lemma_fits();
        }
        if self.entries[at].is_selected {
            return ;
        }
        let ghost s = self@;
        let ghost sib = s.siblings(subject);
        self.entries[at].is_selected = true;
        self.collision_map.occupy(subject, &self.entries[at].classes);
        let idx = self.entries[at].subject_idx;
        proof {
            lemma_entry_replaced(old(self).entries@, self.entries@, at as int);
            let m = s.selecting(subject, sib.take(0));
            assert(self@.entries =~= m);
            self.collision_map.lemma_view_shaped();
            assert forall|d: int, p: int, x: SubjectId| in_grid(d, p) implies (
            #[trigger] self@.grid[d][p].contains(x) <==> occupies(m, x, d, p)) by {
                assert(s.grid[d][p].contains(x) <==> occupies(s.entries, x, d, p));
            }
            lemma_grid_of(m, self@.grid);
            lemma_with_entries_wf(s, m);
            assert(self@ == s.with_entries(m));
        }
        let n = self.subjects_choices[idx].choices.len();
        let mut j: usize = 0;
        while j < n
            invariant
                j <= n,
                s.wf(),
                s.entries.contains_key(subject),
                idx == s.entries[subject].subject_idx,
                sib == s.siblings(subject),
                n == sib.len(),
                self.subjects_choices == old(self).subjects_choices,
                s.catalog == catalog_view(self.subjects_choices@),
                idx < self.subjects_choices.len(),
                self.wf(),
                self@ == s.with_entries(s.selecting(subject, sib.take(j as int))),
            decreases n - j,
        {
            let other = self.subjects_choices[idx].choices[j].id;
            let ghost cur = self@;
            assert(other == sib[j as int]);
            if other != subject {
                self.deselect_helper(other);
            }
            proof {
                let m0 = s.selecting(subject, sib.take(j as int));
                let m1 = s.selecting(subject, sib.take(j + 1));
                let a = sib.take(j as int);
                let b = sib.take(j + 1);
                assert forall|x: SubjectId| b.contains(x) <==> (a.contains(x) || x == other) by {
                    if b.contains(x) {
                        let k = choose|k: int| 0 <= k < b.len() && b[k] == x;
                        if k < j {
                            assert(a[k] == x);
                        }
                    }
                    if a.contains(x) {
                        let k = choose|k: int| 0 <= k < a.len() && a[k] == x;
                        assert(b[k] == x);
                    }
                    if x == other {
                        assert(b[j as int] == x);
                    }
                }
                assert(self@.entries =~= m1);
                lemma_with_entries_wf(s, m1);
                lemma_grid_of(m1, self@.grid);
                assert(self@ == s.with_entries(m1));
            }
            j += 1;
        }
        proof {
            assert(sib.take(n as int) =~= sib);
        }
    }

    /// Switches `subject`: deselects it if it is selected, selects it if
    /// not.
    pub fn toggle(&mut self, subject: SubjectId)
        requires
            old(self).wf(),
        ensures
            final(self).wf(),
            final(self)@ == old(self)@.toggle(subject),
    {
        if self.is_selected_untracked(subject) {
            self.deselect(subject);
        } else {
            self.select(subject);
        }
    }

    /// The weekly grid of the subjects selected now.
    pub fn grid(&self) -> (g: &ScheduleGrid)
        requires
            self.wf(),
        ensures
            g.wf(),
            g@ == self@.grid,
    {
        &self.collision_map
    }

    /// The catalog that the selection is made from.
    pub fn choices(&self) -> (r: &Vec<SubjectChoices>)
        ensures
            catalog_view(r@) == self@.catalog,
    {
        &self.subjects_choices
    }

    /// Whether nothing is pending: every subject is selected now exactly
    /// if it was when the selection was last saved.
    pub fn saved(&self) -> (r: bool)
        requires
            self.wf(),
        ensures
            r == self@.saved(),
    {
        let mut i: usize = 0;
        while i < self.entries.len()
            invariant
                i <= self.entries.len(),
                self.wf(),
                forall|k: int|
                    0 <= k < i ==> (#[trigger] self.entries[k]).is_selected
                        == self.entries[k].initial_selected,
            decreases self.entries.len() - i,
        {
            if self.entries[i].is_selected != self.entries[i].initial_selected {
                proof {
                    lemma_entry_at(self.entries@, i as int);
                    assert(self@.entries.contains_key(self.entries[i as int].id));
                }
                return false;
            }
            i += 1;
        }
        proof {
            assert forall|id: SubjectId| #[trigger]
                self@.entries.contains_key(id) implies self@.entries[id].is_selected
                == self@.entries[id].initial_selected by {
                let k = lemma_entry_known(self.entries@, id);
                assert(self.entries[k].is_selected == self.entries[k].initial_selected);
            }
        }
        true
    }

    /// The subjects selected now: what a save submits.
    pub fn selected_ids(&self) -> (r: SubjectSet)
        requires
            self.wf(),
        ensures
            r.wf(),
            r@ == self@.selected_set(),
    {
        let mut r = SubjectSet::new();
        let mut i: usize = 0;
        while i < self.entries.len()
            invariant
                i <= self.entries.len(),
                self.wf(),
                r.wf(),
                forall|x: SubjectId|
                    r@.contains(x) <==> exists|k: int|
                        0 <= k < i && (#[trigger] self.entries[k]).id == x
                            && self.entries[k].is_selected,
            decreases self.entries.len() - i,
        {
            let ghost before = r@;
            if self.entries[i].is_selected {
                r.insert(self.entries[i].id);
            }
            proof {
                let e = self.entries[i as int];
                assert forall|x: SubjectId|
                    r@.contains(x) <==> exists|k: int|
                        0 <= k < i + 1 && (#[trigger] self.entries[k]).id == x
                            && self.entries[k].is_selected by {
                    if before.contains(x) {
                        let k = choose|k: int|
                            0 <= k < i && (#[trigger] self.entries[k]).id == x
                                && self.entries[k].is_selected;
                        assert(0 <= k < i + 1);
                    }
                    if x == e.id && e.is_selected {
                        assert(self.entries[i as int].id == x);
                    }
                }
            }
            i += 1;
        }
        proof {
            assert forall|x: SubjectId| r@.contains(x) <==> self@.is_selected(x) by {
                if r@.contains(x) {
                    let k = choose|k: int|
                        0 <= k < self.entries.len() && (#[trigger] self.entries[k]).id == x
                            && self.entries[k].is_selected;
                    lemma_entry_at(self.entries@, k);
                }
                if self@.is_selected(x) {
                    let k = lemma_entry_known(self.entries@, x);
                    assert(self.entries[k].id == x);
                }
            }
            assert(r@ =~= self@.selected_set());
        }
        r
    }

    /// The meetings of all selected subjects, for the timetable: subject
    /// after subject in ascending order, each with its meetings in their
    /// order.
    pub fn classes(&self) -> (r: Vec<Class>)
        requires
            self.wf(),
        ensures
            r@ == self@.classes(),
    {
        let mut r: Vec<Class> = Vec::new();
        let ghost s = self@;
        let mut i: usize = 0;
        while i < self.entries.len()
            invariant
                i <= self.entries.len(),
                self.wf(),
                s == self@,
                r@ == s.classes_of(s.order.take(i as int)),
            decreases self.entries.len() - i,
        {
            let ghost before = r@;
            proof {
                lemma_entry_at(self.entries@, i as int);
                assert(s.order[i as int] == self.entries[i as int].id);
                assert(s.order.take(i + 1).drop_last() =~= s.order.take(i as int));
            }
            if self.entries[i].is_selected {
                let classes = &self.entries[i].classes;
                let mut k: usize = 0;
                while k < classes.len()
                    invariant
                        k <= classes.len(),
                        r@ == before + classes@.take(k as int),
                    decreases classes.len() - k,
                {
                    r.push(classes[k].clone());
                    proof {
                        assert(classes@.take(k + 1) =~= classes@.take(k as int).push(
                            classes@[k as int],
                        ));
                    }
                    k += 1;
                }
                proof {
                    assert(classes@.take(classes.len() as int) =~= classes@);
                }
            } else {
                proof {
                    assert(before + Seq::<Class>::empty() =~= before);
                }
            }
            i += 1;
        }
        proof {
            assert(s.order.take(self.entries.len() as int) =~= s.order);
        }
        r
    }

    /// Takes the outcome of submitting the selected subjects. After a
    /// success what is selected now is the saved state; after a failure
    /// nothing changes, and the error is handed on.
    pub fn save<E>(&mut self, outcome: Result<(), E>) -> (r: Result<(), E>)
        requires
            old(self).wf(),
        ensures
            final(self).wf(),
            r == outcome,
            outcome is Ok ==> final(self)@ == old(self)@.save(),
            outcome is Err ==> final(self)@ == old(self)@,
    {
        if outcome.is_err() {
            return outcome;
        }
        let ghost s = self@;
        let ghost es = self.entries@;
        let mut i: usize = 0;
        while i < self.entries.len()
            invariant
                i <= self.entries.len(),
                self.entries.len() == es.len(),
                self.collision_map == old(self).collision_map,
                self.subjects_choices == old(self).subjects_choices,
                forall|k: int|
                    0 <= k < es.len() ==> {
                        &&& (#[trigger] self.entries[k]).id == es[k].id
                        &&& self.entries[k].classes == es[k].classes
                        &&& self.entries[k].subject_idx == es[k].subject_idx
                        &&& self.entries[k].is_selected == es[k].is_selected
                        &&& self.entries[k].initial_selected == (if k < i {
                            es[k].is_selected
                        } else {
                            es[k].initial_selected
                        })
                    },
            decreases self.entries.len() - i,
        {
            let on = self.entries[i].is_selected;
            self.entries[i].initial_selected = on;
            i += 1;
        }
        proof {
            let t = s.save();
            assert(ids_of(self.entries@) =~= ids_of(es));
            assert forall|x: SubjectId| #[trigger]
                self@.entries.contains_key(x) implies self@.entries[x] == t.entries[x] by {
                let k = lemma_entry_known(self.entries@, x);
                lemma_entry_at(es, k);
                assert(self.entries[k].id == es[k].id);
            }
            assert(self@.entries =~= t.entries);
            assert(self@ == t);
            lemma_operations_keep_wf(s, SubjectId(0));
        }
        outcome
    }

    /// Goes back to the saved state: every subject is selected exactly if
    /// it was when the selection was last saved, and the grid is built
    /// anew from those.
    pub fn discard(&mut self)
        requires
            old(self).wf(),
        ensures
            final(self).wf(),
            final(self)@ == old(self)@.discard(),
    {
        let ghost s = self@;
        let ghost es = self.entries@;
        proof {
            self.lemma_fits();
        }
        let mut i: usize = 0;
        while i < self.entries.len()
            invariant
                i <= self.entries.len(),
                self.entries.len() == es.len(),
                self.subjects_choices == old(self).subjects_choices,
                forall|k: int|
                    0 <= k < es.len() ==> {
                        &&& (#[trigger] self.entries[k]).id == es[k].id
                        &&& self.entries[k].classes == es[k].classes
                        &&& self.entries[k].subject_idx == es[k].subject_idx
                        &&& self.entries[k].initial_selected == es[k].initial_selected
                        &&& self.entries[k].is_selected == (if k < i {
                            es[k].initial_selected
                        } else {
                            es[k].is_selected
                        })
                    },
            decreases self.entries.len() - i,
        {
            let on = self.entries[i].initial_selected;
            self.entries[i].is_selected = on;
            i += 1;
        }
        proof {
            assert(ids_of(self.entries@) =~= ids_of(es));
            assert forall|k: int| 0 <= k < self.entries.len() implies meetings_fit_grid(
                (#[trigger] self.entries[k]).classes@,
            ) by {
                assert(self.entries[k].classes == es[k].classes);
            }
        }
        self.collision_map = build_grid(&self.entries);
        proof {
            let t = s.discard();
            assert forall|x: SubjectId| #[trigger]
                self@.entries.contains_key(x) implies self@.entries[x] == t.entries[x] by {
                let k = lemma_entry_known(self.entries@, x);
                lemma_entry_at(es, k);
                assert(self.entries[k].id == es[k].id);
            }
            assert(self@.entries =~= t.entries);
            assert(self@ == t);
            lemma_operations_keep_wf(s, SubjectId(0));
        }
    }

    /// The selection over the catalog `all` of a student whose saved
    /// subjects are `selected`: each subject of the catalog is selected
    /// exactly if it is saved, and nothing is pending. Of two subjects of
    /// the catalog with one identifier the later stays.
    pub fn new(selected: &SubjectSet, all: &[SubjectChoices]) -> (r: Self)
        requires
            selected.wf(),
            catalog_fits_grid(catalog_view(all@)),
        ensures
            r.wf(),
            r@.wf(),
            r@.saved(),
            forall|id: SubjectId| r@.is_selected(id) ==> selected@.contains(id),
            r@.entries == catalog_entries(catalog_view(all@), selected@),
            r@.catalog == catalog_view(all@),
    {
        let ghost catalog = catalog_view(all@);
        let ghost sel = selected@;
        let mut entries: Vec<SelectionEntry> = Vec::new();
        let mut choices: Vec<SubjectChoices> = Vec::new();
        proof {
            assert(entries_map(entries@) =~= Map::<SubjectId, EntryView>::empty());
            assert(catalog.take(0) =~= Seq::empty());
        }
        let mut g: usize = 0;
        while g < all.len()
            invariant
                g <= all.len(),
                selected.wf(),
                sel == selected@,
                catalog == catalog_view(all@),
                catalog_fits_grid(catalog),
                strictly_increasing(ids_of(entries@)),
                entries_map(entries@) == catalog_entries(catalog.take(g as int), sel),
                catalog_view(choices@) == catalog.take(g as int),
                entries_known(entries_map(entries@), catalog, g as int),
            decreases all.len() - g,
        {
            let course = &all[g];
            let ghost base = entries_map(entries@);
            let ghost cv = catalog[g as int];
            proof {
                assert(cv == course@);
                assert(cv.choices.take(0) =~= Seq::empty());
            }
            let mut j: usize = 0;
            while j < course.choices.len()
                invariant
                    j <= course.choices.len(),
                    g < all.len(),
                    selected.wf(),
                    sel == selected@,
                    catalog == catalog_view(all@),
                    cv == catalog[g as int],
                    cv == course@,
                    catalog_fits_grid(catalog),
                    strictly_increasing(ids_of(entries@)),
                    entries_map(entries@) == group_entries(
                        base,
                        cv.choices.take(j as int),
                        g as int,
                        sel,
                    ),
                    entries_known(entries_map(entries@), catalog, g + 1),
                decreases course.choices.len() - j,
            {
                let subject = &course.choices[j];
                let on = selected.contains(subject.id);
                let e = SelectionEntry {
                    id: subject.id,
                    classes: subject.meetings(),
                    is_selected: on,
                    initial_selected: on,
                    subject_idx: g,
                };
                let ghost m0 = entries_map(entries@);
                proof {
                    assert(e@ == entry_of(*subject, g as int, sel));
                    assert(cv.choices[j as int] == *subject);
                    assert(cv.choices.take(j + 1).drop_last() =~= cv.choices.take(j as int));
                    assert(subject.spec_fits_grid());
                    assert(choice_ids(cv)[j as int] == subject.id);
                }
                put_entry(&mut entries, e);
                proof {
                    let m1 = entries_map(entries@);
                    assert forall|x: SubjectId| #[trigger] m1.contains_key(x) implies {
                        &&& 0 <= m1[x].subject_idx < g + 1
                        &&& choice_ids(catalog[m1[x].subject_idx]).contains(x)
                        &&& meetings_fit_grid(m1[x].classes)
                    } by {
                        if x != subject.id {
                            assert(m0.contains_key(x));
                        }
                    }
                }
                j += 1;
            }
            choices.push(course.clone());
            proof {
                assert(cv.choices.take(course.choices.len() as int) =~= cv.choices);
                assert(catalog.take(g + 1).drop_last() =~= catalog.take(g as int));
                assert(catalog.take(g + 1).last() == cv);
                assert(catalog_view(choices@) =~= catalog.take(g + 1));
            }
            g += 1;
        }
        proof {
            assert(catalog.take(all.len() as int) =~= catalog);
            let m = entries_map(entries@);
            assert forall|i: int| 0 <= i < entries.len() implies meetings_fit_grid(
                (#[trigger] entries[i]).classes@,
            ) by {
                lemma_entry_at(entries@, i);
                assert(m.contains_key(entries[i].id));
            }
        }
        let collision_map = build_grid(&entries);
        let r = SubjectsSignal { entries, collision_map, subjects_choices: choices };
        proof {
            r.collision_map.lemma_view_shaped();
            lemma_catalog_entries_start(catalog, sel);
            let s = r@;
            assert forall|id: SubjectId| s.order.contains(id) <==> s.entries.contains_key(id) by {}
            assert forall|id: SubjectId| #[trigger] s.entries.contains_key(id) implies {
                &&& 0 <= s.entries[id].subject_idx < s.catalog.len()
                &&& s.siblings(id).contains(id)
                &&& meetings_fit_grid(s.entries[id].classes)
            } by {}
        }
        r
    }
}

} // verus!
