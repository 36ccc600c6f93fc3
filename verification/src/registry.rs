//! The subject registry: the subjects, and for each the tests that were
//! assigned when the subject was created.

use vstd::prelude::*;
use uuid::Uuid;
use crate::error::Failure;
use crate::text::same_text;
use crate::types::{User, UserView, strings_view};

verus! {

/// A subject with the identifiers of the tests assigned to it.
pub struct Subject {
    pub user: User,
    pub tests: Vec<String>,
}

/// The view of a [`Subject`].
pub struct SubjectView {
    pub user: UserView,
    pub tests: Seq<Seq<char>>,
}

impl View for Subject {
    type V = SubjectView;

    open spec fn view(&self) -> SubjectView {
        SubjectView { user: self.user@, tests: strings_view(self.tests@) }
    }
}

/// The views of a list of subjects, in order.
pub open spec fn subjects_view(s: Seq<Subject>) -> Seq<SubjectView> {
    s.map_values(|x: Subject| x@)
}

/// Whether a subject with this identifier is among `subjects`.
pub open spec fn has_subject(subjects: Seq<SubjectView>, id: Seq<char>) -> bool {
    exists|i: int| 0 <= i < subjects.len() && (#[trigger] subjects[i]).user.id == id
}

/// Whether `test` is assigned to the subject `id`.
pub open spec fn is_assigned(subjects: Seq<SubjectView>, id: Seq<char>, test: Seq<char>) -> bool {
    exists|i: int|
        0 <= i < subjects.len() && (#[trigger] subjects[i]).user.id == id && subjects[i].tests.contains(
            test,
        )
}

/// The subjects with every assignment taken away.
pub open spec fn unassigned(subjects: Seq<SubjectView>) -> Seq<SubjectView> {
    subjects.map_values(|s: SubjectView| SubjectView { user: s.user, tests: Seq::empty() })
}

/// What holds of every registry: no two subjects share an identifier.
pub open spec fn registry_wf(subjects: Seq<SubjectView>) -> bool {
    forall|i: int, j: int|
        0 <= i < j < subjects.len() ==> (#[trigger] subjects[i]).user.id != (
        #[trigger] subjects[j]).user.id
}

/// Whether `test` is among `tests`.
fn lists(tests: &Vec<String>, test: &str) -> (b: bool)
    ensures
        b == strings_view(tests@).contains(test@),
{
    let mut i: usize = 0;
    while i < tests.len()
        invariant
            i <= tests.len(),
            forall|a: int| 0 <= a < i ==> #[trigger] strings_view(tests@)[a] != test@,
        decreases tests.len() - i,
    {
        if same_text(tests[i].as_str(), test) {
            proof {
                assert(strings_view(tests@)[i as int] == test@);
            }
            return true;
        }
        i += 1;
    }
    false
}

/// The subjects and the "assigned" relation.
pub struct Registry {
    subjects: Vec<Subject>,
}

impl Registry {
    /// The subjects, in the order in which they were created.
    pub closed spec fn subjects(&self) -> Seq<SubjectView> {
        subjects_view(self.subjects@)
    }

    /// Whether the registry is well formed.
    pub open spec fn wf(&self) -> bool {
        registry_wf(self.subjects())
    }

    /// A registry without subjects.
    pub fn new() -> (r: Registry)
        ensures
            r.wf(),
            r.subjects() == Seq::<SubjectView>::empty(),
    {
        let r = Registry { subjects: Vec::new() };
        proof {
            assert(r.subjects() =~= Seq::<SubjectView>::empty());
        }
        r
    }

    /// Whether a subject with this identifier exists.
    pub fn has_subject(&self, id: &str) -> (b: bool)
        ensures
            b == has_subject(self.subjects(), id@),
    {
        let mut i: usize = 0;
        while i < self.subjects.len()
            invariant
                i <= self.subjects.len(),
                forall|a: int| 0 <= a < i ==> (#[trigger] self.subjects()[a]).user.id != id@,
            decreases self.subjects.len() - i,
        {
            if same_text(self.subjects[i].user.id.as_str(), id) {
                proof {
                    assert(self.subjects()[i as int].user.id == id@);
                }
                return true;
            }
            i += 1;
        }
        false
    }

    /// Whether `test` is assigned to the subject `id`.
    pub fn is_assigned(&self, id: &str, test: &str) -> (b: bool)
        ensures
            b == is_assigned(self.subjects(), id@, test@),
    {
        let mut i: usize = 0;
        while i < self.subjects.len()
            invariant
                i <= self.subjects.len(),
                forall|a: int|
                    0 <= a < i ==> !((#[trigger] self.subjects()[a]).user.id == id@
                        && self.subjects()[a].tests.contains(test@)),
            decreases self.subjects.len() - i,
        {
            if same_text(self.subjects[i].user.id.as_str(), id) && lists(
                &self.subjects[i].tests,
                test,
            ) {
                proof {
                    assert(self.subjects()[i as int].user.id == id@);
                    assert(self.subjects()[i as int].tests.contains(test@));
                }
                return true;
            }
            i += 1;
        }
        false
    }

    /// Enters a subject with the tests assigned to it. Where the identifier
    /// is taken, nothing changes and the failure is `Integrity`.
    pub fn register(&mut self, id: String, retrieval_id: Uuid, tests: Vec<String>) -> (r: Result<
        User,
        Failure,
    >)
        requires
            old(self).wf(),
        ensures
            final(self).wf(),
            match r {
                Ok(u) => {
                    &&& !has_subject(old(self).subjects(), id@)
                    &&& u@ == (UserView { id: id@, retrieval_id })
                    &&& final(self).subjects() == old(self).subjects().push(
                        SubjectView { user: u@, tests: strings_view(tests@) },
                    )
                },
                Err(e) => {
                    &&& e == Failure::Integrity
                    &&& has_subject(old(self).subjects(), id@)
                    &&& final(self).subjects() == old(self).subjects()
                },
            },
    {
        if self.has_subject(id.as_str()) {
            return Err(Failure::Integrity);
        }
        let s = Subject { user: User { id, retrieval_id }, tests };
        let u = s.user.duplicate();
        let ghost before = self.subjects();
        self.subjects.push(s);
        proof {
            assert(self.subjects() =~= before.push(s@));
            assert forall|i: int, j: int| 0 <= i < j < self.subjects().len() implies (
            #[trigger] self.subjects()[i]).user.id != (#[trigger] self.subjects()[j]).user.id by {
                assert(self.subjects()[i] == before[i]);
                if j < before.len() {
                    assert(self.subjects()[j] == before[j]);
                }
            }
        }
        Ok(u)
    }

    /// Takes every assignment away; the subjects stay.
    pub fn clear_assignments(&mut self)
        requires
            old(self).wf(),
        ensures
            final(self).wf(),
            final(self).subjects() == unassigned(old(self).subjects()),
    {
        let ghost before = self.subjects();
        let mut kept: Vec<Subject> = Vec::new();
        let mut i: usize = 0;
        while i < self.subjects.len()
            invariant
                i <= self.subjects.len(),
                before == self.subjects(),
                kept@.len() == i,
                forall|a: int|
                    0 <= a < i ==> (#[trigger] kept@[a])@ == (SubjectView {
                        user: before[a].user,
                        tests: Seq::empty(),
                    }),
            decreases self.subjects.len() - i,
        {
            let s: &Subject = &self.subjects[i];
            let copy = Subject { user: s.user.duplicate(), tests: Vec::new() };
            proof {
                assert(strings_view(copy.tests@) =~= Seq::<Seq<char>>::empty());
                assert(before[i as int] == s@);
            }
            kept.push(copy);
            i += 1;
        }
        self.subjects = kept;
        proof {
            assert(self.subjects() =~= unassigned(before));
        }
    }
}

} // verus!
