//! The handle on the store: catalog, subjects and answers behind one value
//! that is passed to whoever needs it.

use vstd::prelude::*;
use uuid::Uuid;
use crate::answers::{
    AnswerStore, EdgeView, answers_view, answers_wf, lemma_submitted_members, old_or_submitted,
    submitted,
};
use crate::catalog::{
    Catalog, EntryView, addable, catalog_wf, distinct_ids, has_question, has_test, questions_of,
    tagged,
};
use crate::error::Failure;
use crate::ids::{fresh_uuid, uuid_text};
use crate::order::{canonical, numeric_key, sorted_by_key};
use crate::registry::{Registry, SubjectView, has_subject, is_assigned, registry_wf, unassigned};
use crate::scoring::{in_range, lemma_rows_follow_questions, score, scored};
use crate::types::{
    Data, Question, RowView, Test, TestResultRecord, TestView, User, UserView, questions_view,
    rows_view, strings_view, tests_view,
};

verus! {

/// Whether every one of `wanted` is the identifier of a test.
pub open spec fn all_tests_exist(tests: Seq<TestView>, wanted: Seq<Seq<char>>) -> bool {
    forall|k: int| 0 <= k < wanted.len() ==> has_test(tests, #[trigger] wanted[k])
}

/// Whether every answer is to a question of the catalog.
pub open spec fn all_questions_exist(entries: Seq<EntryView>, answers: Seq<(Seq<char>, nat)>) -> bool {
    forall|k: int| 0 <= k < answers.len() ==> has_question(entries, (#[trigger] answers[k]).0)
}

/// The tests assigned to `subject`, in the order of `tests`.
pub open spec fn assigned_of(tests: Seq<TestView>, subjects: Seq<SubjectView>, subject: Seq<char>) -> Seq<
    TestView,
>
    decreases tests.len(),
{
    if tests.len() == 0 {
        Seq::empty()
    } else if is_assigned(subjects, subject, tests.last().id) {
        assigned_of(tests.drop_last(), subjects, subject).push(tests.last())
    } else {
        assigned_of(tests.drop_last(), subjects, subject)
    }
}

/// Whether the rows stand in ascending order of the numeric keys of their
/// questions.
pub open spec fn rows_sorted(rows: Seq<RowView>) -> bool {
    forall|i: int, j: int|
        0 <= i < j < rows.len() ==> numeric_key((#[trigger] rows[i]).question_id) <= numeric_key(
            (#[trigger] rows[j]).question_id,
        )
}

/// What holds of every store: each part is well formed, every answer leads
/// from a subject to a question that exist, and every assigned test exists.
pub open spec fn db_wf(
    tests: Seq<TestView>,
    entries: Seq<EntryView>,
    subjects: Seq<SubjectView>,
    edges: Seq<EdgeView>,
) -> bool {
    &&& catalog_wf(tests, entries)
    &&& registry_wf(subjects)
    &&& answers_wf(edges)
    &&& forall|i: int|
        0 <= i < edges.len() ==> has_subject(subjects, (#[trigger] edges[i]).subject)
            && has_question(entries, edges[i].question)
    &&& forall|i: int|
        0 <= i < subjects.len() ==> all_tests_exist(tests, (#[trigger] subjects[i]).tests)
}

/// The store.
pub struct Db {
    catalog: Catalog,
    registry: Registry,
    answers: AnswerStore,
}

impl Db {
    /// The tests, in the order in which they were entered.
    pub closed spec fn tests(&self) -> Seq<TestView> {
        self.catalog.tests()
    }

    /// The "contains" relation: every question with its test.
    pub closed spec fn entries(&self) -> Seq<EntryView> {
        self.catalog.entries()
    }

    /// The subjects, each with the tests assigned to it.
    pub closed spec fn subjects(&self) -> Seq<SubjectView> {
        self.registry.subjects()
    }

    /// The "says" relation: the answers, oldest first.
    pub closed spec fn edges(&self) -> Seq<EdgeView> {
        self.answers.edges()
    }

    /// Whether the store is well formed.
    pub open spec fn wf(&self) -> bool {
        db_wf(self.tests(), self.entries(), self.subjects(), self.edges())
    }

    /// A handle on a store that holds nothing yet.
    pub fn get() -> (db: Db)
        ensures
            db.wf(),
            db.tests() == Seq::<TestView>::empty(),
            db.entries() == Seq::<EntryView>::empty(),
            db.subjects() == Seq::<SubjectView>::empty(),
            db.edges() == Seq::<EdgeView>::empty(),
    {
        Db { catalog: Catalog::new(), registry: Registry::new(), answers: AnswerStore::new() }
    }

    /// Seeds the catalog: every test and question is cleared, and with them
    /// every assignment and answer; then `test` is entered with `questions`
    /// in canonical order. The subjects stay. Where two of the questions share
    /// an identifier, nothing changes and the failure is `Integrity`.
    pub fn setup(&mut self, test: Test, questions: Vec<Question>) -> (r: Result<(), Failure>)
        requires
            old(self).wf(),
        ensures
            final(self).wf(),
            match r {
                Ok(_) => {
                    &&& distinct_ids(questions_view(questions@))
                    &&& final(self).tests() == seq![test@]
                    &&& final(self).entries() == tagged(
                        test@.id,
                        canonical(questions_view(questions@)),
                    )
                    &&& questions_of(final(self).entries(), test@.id) == canonical(
                        questions_view(questions@),
                    )
                    &&& final(self).subjects() == unassigned(old(self).subjects())
                    &&& final(self).edges() == Seq::<EdgeView>::empty()
                },
                Err(e) => {
                    &&& e == Failure::Integrity
                    &&& !distinct_ids(questions_view(questions@))
                    &&& final(self).tests() == old(self).tests()
                    &&& final(self).entries() == old(self).entries()
                    &&& final(self).subjects() == old(self).subjects()
                    &&& final(self).edges() == old(self).edges()
                },
            },
    {
        match self.catalog.seed(test, questions) {
            Ok(_) => {
                self.registry.clear_assignments();
                self.answers.clear();
                Ok(())
            },
            Err(e) => Err(e),
        }
    }

    /// A store whose catalog is seeded with `test` and `questions`. Where two
    /// of the questions share an identifier, the failure is `Integrity`.
    pub fn connect(test: Test, questions: Vec<Question>) -> (r: Result<Db, Failure>)
        ensures
            match r {
                Ok(db) => {
                    &&& db.wf()
                    &&& distinct_ids(questions_view(questions@))
                    &&& db.tests() == seq![test@]
                    &&& db.entries() == tagged(test@.id, canonical(questions_view(questions@)))
                    &&& questions_of(db.entries(), test@.id) == canonical(
                        questions_view(questions@),
                    )
                    &&& db.subjects() == Seq::<SubjectView>::empty()
                    &&& db.edges() == Seq::<EdgeView>::empty()
                },
                Err(e) => e == Failure::Integrity && !distinct_ids(questions_view(questions@)),
            },
    {
        let mut db: Db = Db::get();
        match db.setup(test, questions) {
            Ok(_) => {
                proof {
                    assert(db.subjects() =~= Seq::<SubjectView>::empty());
                }
                Ok(db)
            },
            Err(e) => Err(e),
        }
    }

    /// Enters one more test with its questions in canonical order; what the
    /// store holds stays. Where the test's identifier or the identifier of
    /// one of the questions is taken, or two of the questions share one,
    /// nothing changes and the failure is `Integrity`.
    pub fn add_test(&mut self, test: Test, questions: Vec<Question>) -> (r: Result<(), Failure>)
        requires
            old(self).wf(),
        ensures
            final(self).wf(),
            final(self).subjects() == old(self).subjects(),
            final(self).edges() == old(self).edges(),
            match r {
                Ok(_) => {
                    &&& addable(
                        old(self).tests(),
                        old(self).entries(),
                        test@.id,
                        questions_view(questions@),
                    )
                    &&& final(self).tests() == old(self).tests().push(test@)
                    &&& final(self).entries() == old(self).entries() + tagged(
                        test@.id,
                        canonical(questions_view(questions@)),
                    )
                    &&& questions_of(final(self).entries(), test@.id) == canonical(
                        questions_view(questions@),
                    )
                    &&& forall|other: Seq<char>|
                        other != test@.id ==> #[trigger] questions_of(
                            final(self).entries(),
                            other,
                        ) == questions_of(old(self).entries(), other)
                },
                Err(e) => {
                    &&& e == Failure::Integrity
                    &&& !addable(
                        old(self).tests(),
                        old(self).entries(),
                        test@.id,
                        questions_view(questions@),
                    )
                    &&& final(self).tests() == old(self).tests()
                    &&& final(self).entries() == old(self).entries()
                },
            },
    {
        let ghost tests = self.tests();
        let ghost entries = self.entries();
        let r = self.catalog.add_test(test, questions);
        proof {
            if r is Ok {
                let t2 = self.tests();
                let e2 = self.entries();
                assert forall|id: Seq<char>| has_test(tests, id) implies has_test(t2, id) by {
                    let w = choose|w: int| 0 <= w < tests.len() && (#[trigger] tests[w]).id == id;
                    assert(t2[w] == tests[w]);
                }
                assert forall|id: Seq<char>| has_question(entries, id) implies has_question(
                    e2,
                    id,
                ) by {
                    let w = choose|w: int|
                        0 <= w < entries.len() && (#[trigger] entries[w]).question.id == id;
                    assert(e2[w] == entries[w]);
                }
            }
        }
        r
    }

    /// Whether every one of `wanted` is the identifier of a test.
    fn knows_tests(&self, wanted: &Vec<String>) -> (b: bool)
        ensures
            b == all_tests_exist(self.tests(), strings_view(wanted@)),
    {
        let mut k: usize = 0;
        while k < wanted.len()
            invariant
                k <= wanted.len(),
                forall|a: int|
                    0 <= a < k ==> has_test(self.tests(), #[trigger] strings_view(wanted@)[a]),
            decreases wanted.len() - k,
        {
            if !self.catalog.has_test(wanted[k].as_str()) {
                proof {
                    assert(!has_test(self.tests(), strings_view(wanted@)[k as int]));
                }
                return false;
            }
            k += 1;
        }
        true
    }

    /// Enters a subject under the identifiers given, with `tests` assigned to
    /// it. Where one of `tests` is not a test, the failure is `Validation`;
    /// else, where `id` is taken, it is `Integrity`. A failure changes
    /// nothing.
    pub fn register_user(&mut self, id: String, retrieval_id: Uuid, tests: Vec<String>) -> (r:
        Result<User, Failure>)
        requires
            old(self).wf(),
        ensures
            final(self).wf(),
            final(self).tests() == old(self).tests(),
            final(self).entries() == old(self).entries(),
            final(self).edges() == old(self).edges(),
            match r {
                Ok(u) => {
                    &&& all_tests_exist(old(self).tests(), strings_view(tests@))
                    &&& !has_subject(old(self).subjects(), id@)
                    &&& u@ == (UserView { id: id@, retrieval_id })
                    &&& final(self).subjects() == old(self).subjects().push(
                        SubjectView { user: u@, tests: strings_view(tests@) },
                    )
                },
                Err(e) => {
                    &&& final(self).subjects() == old(self).subjects()
                    &&& if !all_tests_exist(old(self).tests(), strings_view(tests@)) {
                        e == Failure::Validation
                    } else {
                        e == Failure::Integrity && has_subject(old(self).subjects(), id@)
                    }
                },
            },
    {
        if !self.knows_tests(&tests) {
            return Err(Failure::Validation);
        }
        let ghost before = self.subjects();
        let r = self.registry.register(id, retrieval_id, tests);
        proof {
            if r is Ok {
                let after = self.subjects();
                assert forall|s: Seq<char>| has_subject(before, s) implies has_subject(after, s) by {
                    let w = choose|w: int|
                        0 <= w < before.len() && (#[trigger] before[w]).user.id == s;
                    assert(after[w] == before[w]);
                }
                assert forall|i: int| 0 <= i < after.len() implies all_tests_exist(
                    self.tests(),
                    (#[trigger] after[i]).tests,
                ) by {
                    if i < before.len() {
                        assert(after[i] == before[i]);
                    }
                }
            }
        }
        r
    }

    /// Creates a subject with fresh identifiers and assigns `tests` to it.
    /// Where one of `tests` is not a test, the failure is `Validation`. The
    /// identifiers are drawn at random; should the first be one that a
    /// subject already has, the failure is `Integrity`, which a store without
    /// subjects therefore never gives. A failure changes nothing.
    pub fn create_user(&mut self, tests: Vec<String>) -> (r: Result<User, Failure>)
        requires
            old(self).wf(),
        ensures
            final(self).wf(),
            final(self).tests() == old(self).tests(),
            final(self).entries() == old(self).entries(),
            final(self).edges() == old(self).edges(),
            match r {
                Ok(u) => {
                    &&& all_tests_exist(old(self).tests(), strings_view(tests@))
                    &&& !has_subject(old(self).subjects(), u@.id)
                    &&& final(self).subjects() == old(self).subjects().push(
                        SubjectView { user: u@, tests: strings_view(tests@) },
                    )
                },
                Err(e) => {
                    &&& final(self).subjects() == old(self).subjects()
                    &&& if !all_tests_exist(old(self).tests(), strings_view(tests@)) {
                        e == Failure::Validation
                    } else {
                        e == Failure::Integrity && old(self).subjects().len() > 0
                    }
                },
            },
    {
        let id: String = uuid_text(fresh_uuid());
        let retrieval_id: Uuid = fresh_uuid();
        self.register_user(id, retrieval_id, tests)
    }

    /// The questions of a test in canonical order, or `NotFound` where no
    /// such test exists.
    pub fn get_questions(&self, test: &str) -> (r: Result<Vec<Question>, Failure>)
        requires
            self.wf(),
        ensures
            match r {
                Ok(v) => {
                    &&& has_test(self.tests(), test@)
                    &&& questions_view(v@) == questions_of(self.entries(), test@)
                    &&& sorted_by_key(questions_view(v@))
                },
                Err(e) => e == Failure::NotFound && !has_test(self.tests(), test@),
            },
    {
        self.catalog.list_questions(test)
    }

    /// Whether every answer is to a question of the catalog.
    fn knows_questions(&self, answers: &Vec<(String, usize)>) -> (b: bool)
        ensures
            b == all_questions_exist(self.entries(), answers_view(answers@)),
    {
        let mut k: usize = 0;
        while k < answers.len()
            invariant
                k <= answers.len(),
                forall|a: int|
                    0 <= a < k ==> has_question(
                        self.entries(),
                        (#[trigger] answers_view(answers@)[a]).0,
                    ),
            decreases answers.len() - k,
        {
            if !self.catalog.has_question(answers[k].0.as_str()) {
                proof {
                    assert(!has_question(self.entries(), answers_view(answers@)[k as int].0));
                }
                return false;
            }
            k += 1;
        }
        true
    }

    /// Records a submission: for each answer, the edge from the subject to
    /// the question is replaced by one with the new choice. All of it happens
    /// or none: where the subject or one of the questions does not exist,
    /// nothing changes and the failure is `NotFound`.
    pub fn submit_test(&mut self, data: Data) -> (r: Result<(), Failure>)
        requires
            old(self).wf(),
        ensures
            final(self).wf(),
            final(self).tests() == old(self).tests(),
            final(self).entries() == old(self).entries(),
            final(self).subjects() == old(self).subjects(),
            match r {
                Ok(_) => {
                    &&& has_subject(old(self).subjects(), data.user.id@)
                    &&& all_questions_exist(old(self).entries(), answers_view(data.q@))
                    &&& final(self).edges() == submitted(
                        old(self).edges(),
                        data.user.id@,
                        answers_view(data.q@),
                    )
                },
                Err(e) => {
                    &&& e == Failure::NotFound
                    &&& !(has_subject(old(self).subjects(), data.user.id@) && all_questions_exist(
                        old(self).entries(),
                        answers_view(data.q@),
                    ))
                    &&& final(self).edges() == old(self).edges()
                },
            },
    {
        if !self.registry.has_subject(data.user.id.as_str()) || !self.knows_questions(&data.q) {
            return Err(Failure::NotFound);
        }
        let ghost before = self.edges();
        let ghost subject = data.user.id@;
        let ghost answers = answers_view(data.q@);
        self.answers.submit(data.user.id.as_str(), &data.q);
        proof {
            let after = self.edges();
            lemma_submitted_members(before, subject, answers);
            assert forall|i: int| 0 <= i < after.len() implies has_subject(
                self.subjects(),
                (#[trigger] after[i]).subject,
            ) && has_question(self.entries(), after[i].question) by {
                assert(old_or_submitted(after[i], before, subject, answers));
                if before.contains(after[i]) {
                    let k = choose|k: int| 0 <= k < before.len() && before[k] == after[i];
                    assert(has_subject(self.subjects(), before[k].subject));
                } else {
                    let k = choose|k: int|
                        0 <= k < answers.len() && (#[trigger] answers[k]).0 == after[i].question;
                    assert(has_question(self.entries(), answers[k].0));
                }
            }
        }
        Ok(())
    }

    /// Scores a test for a subject: one row for each question of the test
    /// that the subject answered, in canonical order. Where the subject or
    /// the test does not exist, the failure is `NotFound`; else, where an
    /// answer points outside its question's options, it is `Integrity`.
    pub fn evaluate_test(&self, user_id: &str, test: &str) -> (r: Result<
        Vec<TestResultRecord>,
        Failure,
    >)
        requires
            self.wf(),
        ensures
            match r {
                Ok(rows) => {
                    &&& has_subject(self.subjects(), user_id@)
                    &&& has_test(self.tests(), test@)
                    &&& in_range(questions_of(self.entries(), test@), self.edges(), user_id@)
                    &&& rows_view(rows@) == scored(
                        questions_of(self.entries(), test@),
                        self.edges(),
                        user_id@,
                    )
                    &&& rows_sorted(rows_view(rows@))
                },
                Err(e) => if has_subject(self.subjects(), user_id@) && has_test(
                    self.tests(),
                    test@,
                ) {
                    e == Failure::Integrity && !in_range(
                        questions_of(self.entries(), test@),
                        self.edges(),
                        user_id@,
                    )
                } else {
                    e == Failure::NotFound
                },
            },
    {
        if !self.registry.has_subject(user_id) {
            return Err(Failure::NotFound);
        }
        match self.catalog.list_questions(test) {
            Ok(questions) => {
                proof {
                    lemma_rows_follow_questions(
                        questions_view(questions@),
                        self.edges(),
                        user_id@,
                    );
                }
                score(&questions, &self.answers, user_id)
            },
            Err(e) => Err(e),
        }
    }

    /// The tests assigned to a subject, in the order of the catalog, or
    /// `NotFound` where no such subject exists.
    pub fn get_assigned_tests(&self, user_id: &str) -> (r: Result<Vec<Test>, Failure>)
        ensures
            match r {
                Ok(v) => has_subject(self.subjects(), user_id@) && tests_view(v@) == assigned_of(
                    self.tests(),
                    self.subjects(),
                    user_id@,
                ),
                Err(e) => e == Failure::NotFound && !has_subject(self.subjects(), user_id@),
            },
    {
        if !self.registry.has_subject(user_id) {
            return Err(Failure::NotFound);
        }
        let all: Vec<Test> = self.catalog.list_tests();
        let ghost tests = self.tests();
        let mut v: Vec<Test> = Vec::new();
        let mut i: usize = 0;
        proof {
            assert(tests.take(0) =~= Seq::<TestView>::empty());
            assert(tests_view(v@) =~= Seq::<TestView>::empty());
        }
        while i < all.len()
            invariant
                i <= all.len(),
                tests == tests_view(all@),
                tests_view(v@) == assigned_of(tests.take(i as int), self.subjects(), user_id@),
            decreases all.len() - i,
        {
            proof {
                assert(tests.take(i + 1).drop_last() =~= tests.take(i as int));
                assert(tests.take(i + 1).last() == all@[i as int]@);
            }
            if self.registry.is_assigned(user_id, all[i].id.as_str()) {
                let t: Test = all[i].duplicate();
                let ghost before = tests_view(v@);
                v.push(t);
                proof {
                    assert(tests_view(v@) =~= before.push(t@));
                }
            }
            i += 1;
        }
        proof {
            assert(tests.take(i as int) =~= tests);
        }
        Ok(v)
    }

    /// All tests, in the order in which they were entered.
    pub fn get_available_tests(&self) -> (v: Vec<Test>)
        ensures
            tests_view(v@) == self.tests(),
    {
        self.catalog.list_tests()
    }
}

} // verus!
