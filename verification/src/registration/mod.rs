//! Registration: the catalog of subjects a student may choose from, the
//! selection being edited, and the server's side of saving it.

pub mod class_card;
pub mod rem_seats_ws;
pub mod schedule_grid;
pub mod seat_view;
pub mod selection_view;
pub mod server_fns;
pub mod subject_set;
pub mod subjects_signal;
pub mod sync_view;

use crate::class::{meetings_fit_grid, Class};
use vstd::prelude::*;

verus! {

/// Identifier of one offerable subject, the same on the client and on the
/// server. Identifiers are ordered by their number.
#[derive(PartialOrd, Ord, PartialEq, Eq, Structural, Copy, Clone, Hash, Debug)]
pub struct SubjectId(pub i64);

/// One way of taking a course: a lecture with, where the course has them,
/// the tutorial and the lab that go with it.
#[derive(PartialEq, Eq, Debug)]
pub struct Subject {
    pub id: SubjectId,
    pub group: u8,
    pub max_seats: u32,
    pub lec: Class,
    pub tut: Option<Class>,
    pub lab: Option<Class>,
}

impl Clone for Subject {
    fn clone(&self) -> (r: Self)
        ensures
            r == *self,
    {
        Subject {
            id: self.id,
            group: self.group,
            max_seats: self.max_seats,
            lec: self.lec.clone(),
            tut: match &self.tut {
                Some(c) => Some(c.clone()),
                None => None,
            },
            lab: match &self.lab {
                Some(c) => Some(c.clone()),
                None => None,
            },
        }
    }
}

impl Subject {
    /// The lecture is a lecture, the tutorial a tutorial and the lab a lab.
    pub open spec fn spec_is_valid(&self) -> bool {
        &&& self.lec.ctype is Lecture
        &&& self.tut matches Some(c) ==> c.ctype is Tutorial
        &&& self.lab matches Some(c) ==> c.ctype is Lab
    }

    #[verifier::when_used_as_spec(spec_is_valid)]
    pub fn is_valid(&self) -> (r: bool)
        ensures
            r == self.spec_is_valid(),
    {
        let tut_ok = match &self.tut {
            Some(c) => c.ctype.is_tutorial(),
            None => true,
        };
        let lab_ok = match &self.lab {
            Some(c) => c.ctype.is_lab(),
            None => true,
        };
        self.lec.ctype.is_lecture() && tut_ok && lab_ok
    }

    /// A subject of these parts, if the lecture is a lecture, the tutorial a
    /// tutorial and the lab a lab.
    pub fn new(
        id: SubjectId,
        group: u8,
        max_seats: u32,
        lec: Class,
        tut: Option<Class>,
        lab: Option<Class>,
    ) -> (r: Option<Subject>)
        ensures
            r == (if (Subject { id, group, max_seats, lec, tut, lab }).spec_is_valid() {
                Some(Subject { id, group, max_seats, lec, tut, lab })
            } else {
                None
            }),
    {
        let s = Subject { id, group, max_seats, lec, tut, lab };
        if s.is_valid() {
            Some(s)
        } else {
            None
        }
    }

    /// The subject's meetings: the lecture, then the tutorial and the lab
    /// where it has them.
    pub open spec fn spec_meetings(&self) -> Seq<Class> {
        seq![self.lec] + (match self.tut {
            Some(c) => seq![c],
            None => seq![],
        }) + (match self.lab {
            Some(c) => seq![c],
            None => seq![],
        })
    }

    pub fn meetings(&self) -> (r: Vec<Class>)
        ensures
            r@ == self.spec_meetings(),
    {
        let mut r: Vec<Class> = Vec::new();
        r.push(self.lec.clone());
        match &self.tut {
            Some(c) => {
                r.push(c.clone());
            },
            None => {},
        }
        match &self.lab {
            Some(c) => {
                r.push(c.clone());
            },
            None => {},
        }
        proof {
            assert(r@ =~= self.spec_meetings());
        }
        r
    }

    /// Every meeting of the subject lies inside the weekly grid.
    pub open spec fn spec_fits_grid(&self) -> bool {
        meetings_fit_grid(self.spec_meetings())
    }

    #[verifier::when_used_as_spec(spec_fits_grid)]
    pub fn fits_grid(&self) -> (r: bool)
        ensures
            r == self.spec_fits_grid(),
    {
        let tut_ok = match &self.tut {
            Some(c) => c.fits_grid(),
            None => true,
        };
        let lab_ok = match &self.lab {
            Some(c) => c.fits_grid(),
            None => true,
        };
        let r = self.lec.fits_grid() && tut_ok && lab_ok;
        proof {
            let ms = self.spec_meetings();
            if r {
                assert forall|k: int| 0 <= k < ms.len() implies (#[trigger] ms[k]).spec_fits_grid() by {
                    if k == 0 {
                        assert(ms[k] == self.lec);
                    }
                }
            } else {
                if !self.lec.spec_fits_grid() {
                    assert(ms[0] == self.lec);
                } else if !tut_ok {
                    assert(ms[1] == self.tut->0);
                } else {
                    assert(ms[ms.len() - 1] == self.lab->0);
                }
            }
        }
        r
    }
}

/// The alternatives (groups and sections) in which one course is offered.
/// A student takes at most one of them.
#[derive(PartialEq, Eq, Debug)]
pub struct SubjectChoices {
    pub level: u8,
    pub name: String,
    pub code: String,
    pub choices: Vec<Subject>,
}

/// What a `SubjectChoices` holds.
pub struct ChoicesView {
    pub level: u8,
    pub name: Seq<char>,
    pub code: Seq<char>,
    pub choices: Seq<Subject>,
}

impl View for SubjectChoices {
    type V = ChoicesView;

    open spec fn view(&self) -> ChoicesView {
        ChoicesView {
            level: self.level,
            name: self.name@,
            code: self.code@,
            choices: self.choices@,
        }
    }
}

impl Clone for SubjectChoices {
    fn clone(&self) -> (r: Self)
        ensures
            r@ == self@,
    {
        let mut choices: Vec<Subject> = Vec::new();
        let mut i: usize = 0;
        while i < self.choices.len()
            invariant
                i <= self.choices.len(),
                choices@ == self.choices@.take(i as int),
            decreases self.choices.len() - i,
        {
            choices.push(self.choices[i].clone());
            proof {
                assert(self.choices@.take(i + 1) =~= self.choices@.take(i as int).push(
                    self.choices@[i as int],
                ));
            }
            i += 1;
        }
        proof {
            assert(self.choices@.take(self.choices.len() as int) =~= self.choices@);
        }
        SubjectChoices {
            level: self.level,
            name: self.name.clone(),
            code: self.code.clone(),
            choices,
        }
    }
}

/// The views of the courses of a catalog, in the catalog's order.
pub open spec fn catalog_view(all: Seq<SubjectChoices>) -> Seq<ChoicesView> {
    all.map_values(|c: SubjectChoices| c@)
}

/// Every meeting of every subject of the catalog lies inside the weekly grid.
pub open spec fn catalog_fits_grid(catalog: Seq<ChoicesView>) -> bool {
    forall|g: int, j: int|
        0 <= g < catalog.len() && 0 <= j < catalog[g].choices.len() ==> (
        #[trigger] catalog[g].choices[j]).spec_fits_grid()
}

/// Whether every meeting of every subject of `all` lies inside the weekly
/// grid.
pub fn fits_grid(all: &[SubjectChoices]) -> (r: bool)
    ensures
        r == catalog_fits_grid(catalog_view(all@)),
{
    let mut g: usize = 0;
    while g < all.len()
        invariant
            g <= all.len(),
            forall|gg: int, j: int|
                0 <= gg < g && 0 <= j < all@[gg].choices@.len() ==> (
                #[trigger] all@[gg].choices@[j]).spec_fits_grid(),
        decreases all.len() - g,
    {
        let mut j: usize = 0;
        while j < all[g].choices.len()
            invariant
                g < all.len(),
                j <= all@[g as int].choices@.len(),
                forall|jj: int| 0 <= jj < j ==> (#[trigger] all@[g as int].choices@[jj]).spec_fits_grid(),
            decreases all@[g as int].choices@.len() - j,
        {
            if !all[g].choices[j].fits_grid() {
                proof {
                    let catalog = catalog_view(all@);
                    assert(catalog[g as int].choices[j as int] == all@[g as int].choices@[j as int]);
                }
                return false;
            }
            j += 1;
        }
        g += 1;
    }
    proof {
        let catalog = catalog_view(all@);
        assert forall|gg: int, j: int|
            0 <= gg < catalog.len() && 0 <= j < catalog[gg].choices.len() implies (
        #[trigger] catalog[gg].choices[j]).spec_fits_grid() by {
            assert(catalog[gg].choices[j] == all@[gg].choices@[j]);
        }
    }
    true
}

} // verus!
