//! What a selection is, as mathematics: which subjects it knows, which of
//! them are selected now and which were when it was last saved, and the
//! weekly grid that follows from that. The operations of the store are
//! defined here on that view, and their laws are proved here.

use crate::class::{meetings_cover, meetings_fit_grid, Class, GRID_DAYS, GRID_PERIODS};
use crate::registration::schedule_grid::{grid_shaped, in_grid, GridView};
use crate::registration::subject_set::strictly_increasing;
use crate::registration::{ChoicesView, Subject, SubjectId};
use vstd::prelude::*;

verus! {

/// What the selection holds of one subject.
pub struct EntryView {
    /// The subject's meetings.
    pub classes: Seq<Class>,
    /// Selected now, saved or not.
    pub is_selected: bool,
    /// Selected when the selection was last saved.
    pub initial_selected: bool,
    /// Position, in the catalog, of the course that the subject is a choice of.
    pub subject_idx: int,
}

impl EntryView {
    pub open spec fn with_selected(self, on: bool) -> EntryView {
        EntryView { is_selected: on, ..self }
    }
}

/// The entry that a selection starts with for subject `s` of course `idx`.
pub open spec fn entry_of(s: Subject, idx: int, selected: Set<SubjectId>) -> EntryView {
    EntryView {
        classes: s.spec_meetings(),
        is_selected: selected.contains(s.id),
        initial_selected: selected.contains(s.id),
        subject_idx: idx,
    }
}

/// `base` with the entries of the subjects `choices` of course `idx` put
/// in, one after the other: of two subjects with one identifier the later
/// stays.
pub open spec fn group_entries(
    base: Map<SubjectId, EntryView>,
    choices: Seq<Subject>,
    idx: int,
    selected: Set<SubjectId>,
) -> Map<SubjectId, EntryView>
    decreases choices.len(),
{
    if choices.len() == 0 {
        base
    } else {
        let s = choices.last();
        group_entries(base, choices.drop_last(), idx, selected).insert(
            s.id,
            entry_of(s, idx, selected),
        )
    }
}

/// The entries that a selection over `catalog` starts with, when the
/// subjects of `selected` are the saved ones.
pub open spec fn catalog_entries(catalog: Seq<ChoicesView>, selected: Set<SubjectId>) -> Map<
    SubjectId,
    EntryView,
>
    decreases catalog.len(),
{
    if catalog.len() == 0 {
        Map::empty()
    } else {
        group_entries(
            catalog_entries(catalog.drop_last(), selected),
            catalog.last().choices,
            catalog.len() - 1,
            selected,
        )
    }
}

/// The identifiers of the choices of a course, in the course's order.
pub open spec fn choice_ids(c: ChoicesView) -> Seq<SubjectId> {
    c.choices.map_values(|s: Subject| s.id)
}

/// Subject `id` is selected in `entries` and one of its meetings takes the
/// cell of day `d` and period `p`.
pub open spec fn occupies(entries: Map<SubjectId, EntryView>, id: SubjectId, d: int, p: int) -> bool {
    &&& entries.contains_key(id)
    &&& entries[id].is_selected
    &&& meetings_cover(entries[id].classes, d, p)
}

/// The grid that holds, in each cell, exactly the selected subjects that
/// meet then.
pub open spec fn grid_of(entries: Map<SubjectId, EntryView>) -> GridView {
    Seq::new(
        GRID_DAYS as nat,
        |d: int|
            Seq::new(
                GRID_PERIODS as nat,
                |p: int| Set::new(|id: SubjectId| occupies(entries, id, d, p)),
            ),
    )
}

/// A selection.
pub struct StoreView {
    /// What is held of each known subject.
    pub entries: Map<SubjectId, EntryView>,
    /// The known subjects in ascending order.
    pub order: Seq<SubjectId>,
    /// The catalog that the selection is made from.
    pub catalog: Seq<ChoicesView>,
    /// The weekly grid of the subjects selected now.
    pub grid: GridView,
}

impl StoreView {
    /// The selection knows `id` and it is selected now.
    pub open spec fn is_selected(self, id: SubjectId) -> bool {
        self.entries.contains_key(id) && self.entries[id].is_selected
    }

    /// The selection knows `id` and it is selected now but was not when
    /// last saved, or the other way round.
    pub open spec fn has_changed(self, id: SubjectId) -> bool {
        self.entries.contains_key(id) && self.entries[id].is_selected
            != self.entries[id].initial_selected
    }

    /// Subject `id` shares a cell that it takes with another selected
    /// subject.
    pub open spec fn has_collisions(self, id: SubjectId) -> bool {
        exists|d: int, p: int, other: SubjectId|
            in_grid(d, p) && other != id && #[trigger] occupies(self.entries, id, d, p)
                && #[trigger] occupies(self.entries, other, d, p)
    }

    /// Nothing is selected that was not when last saved, and the other
    /// way round.
    pub open spec fn saved(self) -> bool {
        forall|id: SubjectId| #[trigger]
            self.entries.contains_key(id) ==> self.entries[id].is_selected
                == self.entries[id].initial_selected
    }

    /// The subjects selected now.
    pub open spec fn selected_set(self) -> Set<SubjectId> {
        Set::new(|id: SubjectId| self.is_selected(id))
    }

    /// The choices of the course that `id` is a choice of.
    pub open spec fn siblings(self, id: SubjectId) -> Seq<SubjectId> {
        choice_ids(self.catalog[self.entries[id].subject_idx])
    }

    /// `a` and `b` are known choices of one course.
    pub open spec fn same_course(self, a: SubjectId, b: SubjectId) -> bool {
        &&& self.entries.contains_key(a)
        &&& self.entries.contains_key(b)
        &&& self.entries[a].subject_idx == self.entries[b].subject_idx
    }

    /// Of the choices of each course at most one is selected.
    pub open spec fn exclusive(self) -> bool {
        forall|a: SubjectId, b: SubjectId|
            #![trigger self.is_selected(a), self.is_selected(b)]
            self.same_course(a, b) && self.is_selected(a) && self.is_selected(b) ==> a == b
    }

    /// The selection is consistent: `order` lists the known subjects, each
    /// is a choice of the course it names and fits the grid, and the grid
    /// holds, in each cell, exactly the selected subjects that meet then.
    pub open spec fn wf(self) -> bool {
        &&& strictly_increasing(self.order)
        &&& forall|id: SubjectId| self.order.contains(id) <==> self.entries.contains_key(id)
        &&& forall|id: SubjectId| #[trigger]
            self.entries.contains_key(id) ==> {
                &&& 0 <= self.entries[id].subject_idx < self.catalog.len()
                &&& self.siblings(id).contains(id)
                &&& meetings_fit_grid(self.entries[id].classes)
            }
        &&& grid_shaped(self.grid)
        &&& forall|d: int, p: int, id: SubjectId|
            in_grid(d, p) ==> (#[trigger] self.grid[d][p].contains(id) <==> occupies(
                self.entries,
                id,
                d,
                p,
            ))
    }

    /// The same catalog with other entries, and the grid that follows from
    /// them.
    pub open spec fn with_entries(self, entries: Map<SubjectId, EntryView>) -> StoreView {
        StoreView { entries, grid: grid_of(entries), ..self }
    }

    /// The selection after `id` was deselected: nothing changes if it is
    /// unknown or not selected.
    pub open spec fn deselect(self, id: SubjectId) -> StoreView {
        if self.is_selected(id) {
            self.with_entries(self.entries.insert(id, self.entries[id].with_selected(false)))
        } else {
            self
        }
    }

    /// The entries after `id` was selected and the subjects of `others`,
    /// but for `id` itself, deselected.
    pub open spec fn selecting(self, id: SubjectId, others: Seq<SubjectId>) -> Map<
        SubjectId,
        EntryView,
    > {
        Map::new(
            |x: SubjectId| self.entries.contains_key(x),
            |x: SubjectId|
                if x == id {
                    self.entries[x].with_selected(true)
                } else if others.contains(x) {
                    self.entries[x].with_selected(false)
                } else {
                    self.entries[x]
                },
        )
    }

    /// The selection after `id` was selected: nothing changes if it is
    /// unknown or selected already; else it becomes selected and the other
    /// choices of its course are deselected.
    pub open spec fn select(self, id: SubjectId) -> StoreView {
        if !self.entries.contains_key(id) || self.entries[id].is_selected {
            self
        } else {
            self.with_entries(self.selecting(id, self.siblings(id)))
        }
    }

    /// The selection after `id` was switched: deselected if it was
    /// selected, selected if not.
    pub open spec fn toggle(self, id: SubjectId) -> StoreView {
        if self.is_selected(id) {
            self.deselect(id)
        } else {
            self.select(id)
        }
    }

    /// The selection as it was when last saved.
    pub open spec fn discard(self) -> StoreView {
        self.with_entries(
            Map::new(
                |x: SubjectId| self.entries.contains_key(x),
                |x: SubjectId| self.entries[x].with_selected(self.entries[x].initial_selected),
            ),
        )
    }

    /// The selection after it was saved: what is selected now is what was
    /// last saved.
    pub open spec fn save(self) -> StoreView {
        StoreView {
            entries: Map::new(
                |x: SubjectId| self.entries.contains_key(x),
                |x: SubjectId|
                    EntryView { initial_selected: self.entries[x].is_selected, ..self.entries[x] },
            ),
            ..self
        }
    }

    /// The meetings of the selected subjects among `ids`, in the order of
    /// `ids`.
    pub open spec fn classes_of(self, ids: Seq<SubjectId>) -> Seq<Class>
        decreases ids.len(),
    {
        if ids.len() == 0 {
            Seq::empty()
        } else {
            let id = ids.last();
            self.classes_of(ids.drop_last()) + (if self.is_selected(id) {
                self.entries[id].classes
            } else {
                Seq::empty()
            })
        }
    }

    /// The meetings of all selected subjects, subject after subject in
    /// ascending order.
    pub open spec fn classes(self) -> Seq<Class> {
        self.classes_of(self.order)
    }
}

/// Each subject of `m` is selected, and was when last saved, exactly if
/// it is one of `selected`.
pub open spec fn starts_from(m: Map<SubjectId, EntryView>, selected: Set<SubjectId>) -> bool {
    forall|id: SubjectId| #[trigger]
        m.contains_key(id) ==> m[id].is_selected == selected.contains(id)
            && m[id].initial_selected == selected.contains(id)
}

proof fn lemma_group_entries_start(
    base: Map<SubjectId, EntryView>,
    choices: Seq<Subject>,
    idx: int,
    selected: Set<SubjectId>,
)
    requires
        starts_from(base, selected),
    ensures
        starts_from(group_entries(base, choices, idx, selected), selected),
    decreases choices.len(),
{
    if choices.len() > 0 {
        lemma_group_entries_start(base, choices.drop_last(), idx, selected);
    }
}

/// A selection starts with exactly the saved subjects of the catalog
/// selected, and nothing pending.
pub proof fn lemma_catalog_entries_start(catalog: Seq<ChoicesView>, selected: Set<SubjectId>)
    ensures
        starts_from(catalog_entries(catalog, selected), selected),
    decreases catalog.len(),
{
    if catalog.len() > 0 {
        lemma_catalog_entries_start(catalog.drop_last(), selected);
        lemma_group_entries_start(
            catalog_entries(catalog.drop_last(), selected),
            catalog.last().choices,
            catalog.len() - 1,
            selected,
        );
    }
}

/// A grid of the right shape that holds in each cell what `grid_of` says
/// is that grid.
pub proof fn lemma_grid_of(entries: Map<SubjectId, EntryView>, g: GridView)
    requires
        grid_shaped(g),
        forall|d: int, p: int, id: SubjectId|
            in_grid(d, p) ==> (#[trigger] g[d][p].contains(id) <==> occupies(entries, id, d, p)),
    ensures
        g == grid_of(entries),
{
    assert forall|d: int, p: int| in_grid(d, p) implies #[trigger] g[d][p] == grid_of(
        entries,
    )[d][p] by {
        assert(g[d][p] =~= grid_of(entries)[d][p]);
    }
    assert(g =~~= grid_of(entries));
}

/// Changing which subjects are selected keeps a selection consistent.
pub proof fn lemma_with_entries_wf(s: StoreView, entries: Map<SubjectId, EntryView>)
    requires
        s.wf(),
        forall|id: SubjectId| entries.contains_key(id) <==> s.entries.contains_key(id),
        forall|id: SubjectId| #[trigger]
            entries.contains_key(id) ==> entries[id].classes == s.entries[id].classes
                && entries[id].subject_idx == s.entries[id].subject_idx,
    ensures
        s.with_entries(entries).wf(),
{
    let t = s.with_entries(entries);
    assert forall|id: SubjectId| #[trigger] t.entries.contains_key(id) implies {
        &&& 0 <= t.entries[id].subject_idx < t.catalog.len()
        &&& t.siblings(id).contains(id)
        &&& meetings_fit_grid(t.entries[id].classes)
    } by {
        assert(s.entries.contains_key(id));
    }
}

/// Selecting, deselecting, switching, discarding and saving keep a
/// selection consistent: whatever the sequence of calls, each cell of the
/// grid holds exactly the selected subjects that meet then.
pub proof fn lemma_operations_keep_wf(s: StoreView, id: SubjectId)
    requires
        s.wf(),
    ensures
        s.select(id).wf(),
        s.deselect(id).wf(),
        s.toggle(id).wf(),
        s.discard().wf(),
        s.save().wf(),
{
    if s.is_selected(id) {
        lemma_with_entries_wf(s, s.entries.insert(id, s.entries[id].with_selected(false)));
    }
    if s.entries.contains_key(id) && !s.entries[id].is_selected {
        lemma_with_entries_wf(s, s.selecting(id, s.siblings(id)));
    }
    lemma_with_entries_wf(s, s.discard().entries);
    let t = s.save();
    assert forall|other: SubjectId| #[trigger] t.entries.contains_key(other) implies {
        &&& 0 <= t.entries[other].subject_idx < t.catalog.len()
        &&& t.siblings(other).contains(other)
        &&& meetings_fit_grid(t.entries[other].classes)
    } by {
        assert(s.entries.contains_key(other));
    }
    assert forall|d: int, p: int, other: SubjectId| in_grid(d, p) implies (
    #[trigger] t.grid[d][p].contains(other) <==> occupies(t.entries, other, d, p)) by {
        assert(occupies(t.entries, other, d, p) <==> occupies(s.entries, other, d, p));
    }
}

/// A subject has a collision exactly if, in one of the cells of the grid
/// that it takes, the grid holds another subject too.
pub proof fn lemma_collision_in_grid(s: StoreView, id: SubjectId)
    requires
        s.wf(),
    ensures
        s.has_collisions(id) <==> exists|d: int, p: int, other: SubjectId|
            in_grid(d, p) && other != id && #[trigger] occupies(s.entries, id, d, p)
                && #[trigger] s.grid[d][p].contains(other),
{
    if s.has_collisions(id) {
        let (d, p, other) = choose|d: int, p: int, other: SubjectId|
            in_grid(d, p) && other != id && #[trigger] occupies(s.entries, id, d, p)
                && #[trigger] occupies(s.entries, other, d, p);
        assert(s.grid[d][p].contains(other));
    }
    if exists|d: int, p: int, other: SubjectId|
        in_grid(d, p) && other != id && #[trigger] occupies(s.entries, id, d, p)
            && #[trigger] s.grid[d][p].contains(other) {
        let (d, p, other) = choose|d: int, p: int, other: SubjectId|
            in_grid(d, p) && other != id && #[trigger] occupies(s.entries, id, d, p)
                && #[trigger] s.grid[d][p].contains(other);
        assert(occupies(s.entries, other, d, p));
    }
}

/// After a subject that was not selected has been selected, it is the only
/// selected choice of its course.
pub proof fn lemma_select_alone_in_course(s: StoreView, id: SubjectId)
    requires
        s.wf(),
        s.entries.contains_key(id),
        !s.entries[id].is_selected,
    ensures
        forall|m: SubjectId|
            s.same_course(m, id) ==> (#[trigger] s.select(id).is_selected(m) <==> m == id),
{
    let t = s.select(id);
    assert forall|m: SubjectId| s.same_course(m, id) implies (#[trigger] t.is_selected(m) <==> m
        == id) by {
        assert(s.entries.contains_key(m));
        assert(s.siblings(m).contains(m));
        assert(s.siblings(m) == s.siblings(id));
    }
}

/// Selecting a subject leaves at most one choice of its course selected,
/// unless the subject was selected already together with another choice
/// of the course.
pub proof fn lemma_select_at_most_one(s: StoreView, id: SubjectId, a: SubjectId, b: SubjectId)
    requires
        s.wf(),
        s.entries.contains_key(id),
        s.is_selected(id) ==> forall|m: SubjectId|
            s.same_course(m, id) && #[trigger] s.is_selected(m) ==> m == id,
        s.same_course(a, id),
        s.same_course(b, id),
        s.select(id).is_selected(a),
        s.select(id).is_selected(b),
    ensures
        a == b,
{
    if !s.entries[id].is_selected {
        lemma_select_alone_in_course(s, id);
    } else {
        assert(s.is_selected(a));
        assert(s.is_selected(b));
    }
}

/// Where at most one choice of each course is selected, that is still so
/// after any subject is selected, deselected or switched.
pub proof fn lemma_exclusive_kept(s: StoreView, id: SubjectId)
    requires
        s.wf(),
        s.exclusive(),
    ensures
        s.select(id).exclusive(),
        s.deselect(id).exclusive(),
        s.toggle(id).exclusive(),
{
    let t = s.select(id);
    assert forall|a: SubjectId, b: SubjectId|
        t.same_course(a, b) && t.is_selected(a) && t.is_selected(b) implies a == b by {
        if s.entries.contains_key(id) && !s.entries[id].is_selected {
            lemma_select_alone_in_course(s, id);
            if s.same_course(a, id) {
                assert(s.same_course(b, id));
            } else {
                assert(s.entries.contains_key(a));
                assert(s.entries.contains_key(b));
                assert(s.is_selected(a));
                assert(s.is_selected(b));
                assert(s.same_course(a, b));
            }
        } else {
            assert(s.same_course(a, b));
        }
    }
    let u = s.deselect(id);
    assert forall|a: SubjectId, b: SubjectId|
        u.same_course(a, b) && u.is_selected(a) && u.is_selected(b) implies a == b by {
        assert(s.is_selected(a));
        assert(s.is_selected(b));
        assert(s.same_course(a, b));
    }
}

/// Discarding right after a save changes nothing.
pub proof fn lemma_save_then_discard(s: StoreView)
    requires
        s.wf(),
    ensures
        s.save().discard() == s.save(),
        s.save().saved(),
{
    let t = s.save();
    let u = t.discard();
    assert(u.entries =~= t.entries);
    assert forall|d: int, p: int, id: SubjectId| in_grid(d, p) implies (
    #[trigger] t.grid[d][p].contains(id) <==> occupies(t.entries, id, d, p)) by {
        assert(occupies(t.entries, id, d, p) <==> occupies(s.entries, id, d, p));
    }
    lemma_grid_of(t.entries, t.grid);
}

/// No cell of the grid holds `id`, and none holds a choice of its course
/// that selecting `id` would deselect.
pub open spec fn select_leaves_grid(s: StoreView, id: SubjectId) -> bool {
    forall|d: int, p: int, m: SubjectId|
        in_grid(d, p) && (m == id || (!s.is_selected(id) && s.siblings(id).contains(m))) ==> !(
        #[trigger] s.grid[d][p].contains(m))
}

/// Selecting a subject and deselecting it again gives the grid back as it
/// was, where before the two calls the grid held neither the subject nor
/// a choice of its course that selecting the subject deselects.
pub proof fn lemma_select_then_deselect(s: StoreView, id: SubjectId)
    requires
        s.wf(),
        s.entries.contains_key(id) ==> select_leaves_grid(s, id),
    ensures
        s.select(id).deselect(id).grid == s.grid,
{
    lemma_operations_keep_wf(s, id);
    let t = s.select(id);
    lemma_operations_keep_wf(t, id);
    let u = t.deselect(id);
    assert forall|d: int, p: int, m: SubjectId| in_grid(d, p) implies (
    #[trigger] s.grid[d][p].contains(m) <==> occupies(u.entries, m, d, p)) by {
        if s.entries.contains_key(id) {
            if m == id || (!s.is_selected(id) && s.siblings(id).contains(m)) {
                assert(!s.grid[d][p].contains(m));
                assert(!occupies(s.entries, m, d, p));
            }
        }
    }
    lemma_grid_of(u.entries, s.grid);
    lemma_grid_of(u.entries, u.grid);
}

/// On every other known subject the two calls change the grid: a cell that
/// held the subject, or a choice of its course that selecting it
/// deselects, holds it no longer.
pub proof fn lemma_select_then_deselect_only_then(s: StoreView, id: SubjectId)
    requires
        s.wf(),
        s.entries.contains_key(id),
        !select_leaves_grid(s, id),
    ensures
        s.select(id).deselect(id).grid != s.grid,
{
    lemma_operations_keep_wf(s, id);
    let t = s.select(id);
    lemma_operations_keep_wf(t, id);
    let u = t.deselect(id);
    let (d, p, m) = choose|d: int, p: int, m: SubjectId|
        in_grid(d, p) && (m == id || (!s.is_selected(id) && s.siblings(id).contains(m)))
            && #[trigger] s.grid[d][p].contains(m);
    assert(occupies(s.entries, m, d, p));
    assert(!occupies(u.entries, m, d, p));
    assert(!u.grid[d][p].contains(m));
}

} // verus!
