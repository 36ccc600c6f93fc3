//! The question catalog: the tests, and for each test its questions in
//! canonical order. A question belongs to one test from the moment it is
//! entered.

use vstd::prelude::*;
use crate::error::Failure;
use crate::order::{
    canonical, lemma_canonical_idempotent, lemma_canonical_sorted, lemma_slot, numeric_key, slot,
    sort_questions, sorted_by_key,
};
use crate::text::same_text;
use crate::types::{Question, QuestionView, Test, TestView, questions_view, tests_view};

verus! {

/// A question together with the test that contains it.
pub struct Entry {
    pub test: String,
    pub question: Question,
}

/// The view of an [`Entry`].
pub struct EntryView {
    pub test: Seq<char>,
    pub question: QuestionView,
}

impl View for Entry {
    type V = EntryView;

    open spec fn view(&self) -> EntryView {
        EntryView { test: self.test@, question: self.question@ }
    }
}

/// The tests and the "contains" relation.
pub struct Catalog {
    tests: Vec<Test>,
    entries: Vec<Entry>,
}

/// Whether a test with this identifier is among `tests`.
pub open spec fn has_test(tests: Seq<TestView>, id: Seq<char>) -> bool {
    exists|i: int| 0 <= i < tests.len() && (#[trigger] tests[i]).id == id
}

/// Whether a question with this identifier is among `entries`.
pub open spec fn has_question(entries: Seq<EntryView>, id: Seq<char>) -> bool {
    exists|i: int| 0 <= i < entries.len() && (#[trigger] entries[i]).question.id == id
}

/// The questions that `test` contains, in the order of `entries`.
pub open spec fn questions_of(entries: Seq<EntryView>, test: Seq<char>) -> Seq<QuestionView>
    decreases entries.len(),
{
    if entries.len() == 0 {
        Seq::empty()
    } else if entries.last().test == test {
        questions_of(entries.drop_last(), test).push(entries.last().question)
    } else {
        questions_of(entries.drop_last(), test)
    }
}

/// The questions `qs`, each as an entry of `test`.
pub open spec fn tagged(test: Seq<char>, qs: Seq<QuestionView>) -> Seq<EntryView> {
    qs.map_values(|q: QuestionView| EntryView { test, question: q })
}

/// Whether no two questions of `qs` share an identifier.
pub open spec fn distinct_ids(qs: Seq<QuestionView>) -> bool {
    forall|i: int, j: int| 0 <= i < j < qs.len() ==> (#[trigger] qs[i]).id != (#[trigger] qs[j]).id
}

/// Whether a test `test` with the questions `qs` can join the catalog: its
/// identifier is new, and so is each question's, among the catalog's
/// questions and among `qs`.
pub open spec fn addable(
    tests: Seq<TestView>,
    entries: Seq<EntryView>,
    test: Seq<char>,
    qs: Seq<QuestionView>,
) -> bool {
    &&& !has_test(tests, test)
    &&& distinct_ids(qs)
    &&& forall|i: int| 0 <= i < qs.len() ==> !has_question(entries, (#[trigger] qs[i]).id)
}

/// What holds of every catalog: identifiers are unique, every question's test
/// exists, and the questions of one test stand in ascending order of their
/// numeric keys.
pub open spec fn catalog_wf(tests: Seq<TestView>, entries: Seq<EntryView>) -> bool {
    &&& forall|i: int, j: int|
        0 <= i < j < tests.len() ==> (#[trigger] tests[i]).id != (#[trigger] tests[j]).id
    &&& forall|i: int, j: int|
        0 <= i < j < entries.len() ==> (#[trigger] entries[i]).question.id != (
        #[trigger] entries[j]).question.id
    &&& forall|i: int| 0 <= i < entries.len() ==> has_test(tests, (#[trigger] entries[i]).test)
    &&& forall|i: int, j: int|
        0 <= i < j < entries.len() && (#[trigger] entries[i]).test == (#[trigger] entries[j]).test
            ==> numeric_key(entries[i].question.id) <= numeric_key(entries[j].question.id)
}

/// Every question of the canonical order is one of the questions given, and
/// distinct identifiers stay distinct.
pub proof fn lemma_canonical_ids(s: Seq<QuestionView>)
    ensures
        forall|i: int|
            0 <= i < canonical(s).len() ==> s.contains(#[trigger] canonical(s)[i]),
        distinct_ids(s) ==> distinct_ids(canonical(s)),
    decreases s.len(),
{
    if s.len() > 0 {
        let t = s.drop_last();
        let c = canonical(t);
        let q = s.last();
        let p = slot(c, numeric_key(q.id));
        lemma_canonical_ids(t);
        lemma_slot(c, numeric_key(q.id));
        let r = canonical(s);
        assert(r == c.insert(p, q));
        assert forall|i: int| 0 <= i < r.len() implies s.contains(#[trigger] r[i]) by {
            if i == p {
                assert(s[s.len() - 1] == q);
            } else {
                let e = if i < p { c[i] } else { c[i - 1] };
                assert(t.contains(e));
                let w = choose|w: int| 0 <= w < t.len() && t[w] == e;
                assert(s[w] == e);
            }
        }
        if distinct_ids(s) {
            assert(distinct_ids(t)) by {
                assert forall|i: int, j: int| 0 <= i < j < t.len() implies (#[trigger] t[i]).id != (
                #[trigger] t[j]).id by {
                    assert(t[i] == s[i] && t[j] == s[j]);
                }
            }
            assert forall|i: int| 0 <= i < c.len() implies (#[trigger] c[i]).id != q.id by {
                assert(t.contains(c[i]));
                let w = choose|w: int| 0 <= w < t.len() && t[w] == c[i];
                assert(s[w] == c[i]);
                assert(s[s.len() - 1] == q);
            }
            assert forall|i: int, j: int| 0 <= i < j < r.len() implies (#[trigger] r[i]).id != (
            #[trigger] r[j]).id by {
                let a = if i < p { i } else { i - 1 };
                let b = if j < p { j } else { j - 1 };
                if i == p {
                    assert(r[j] == c[b]);
                } else if j == p {
                    assert(r[i] == c[a]);
                } else {
                    assert(r[i] == c[a] && r[j] == c[b]);
                }
            }
        }
    }
}

/// The questions of a test that has no entry are none.
pub proof fn lemma_questions_of_absent(entries: Seq<EntryView>, test: Seq<char>)
    requires
        forall|i: int| 0 <= i < entries.len() ==> (#[trigger] entries[i]).test != test,
    ensures
        questions_of(entries, test) == Seq::<QuestionView>::empty(),
    decreases entries.len(),
{
    if entries.len() > 0 {
        let rest = entries.drop_last();
        assert(entries.last() == entries[entries.len() - 1]);
        assert forall|i: int| 0 <= i < rest.len() implies (#[trigger] rest[i]).test != test by {
            assert(rest[i] == entries[i]);
        }
        lemma_questions_of_absent(rest, test);
    }
}

/// The questions of `test` among entries that all belong to it are all of
/// them.
pub proof fn lemma_questions_of_tagged(test: Seq<char>, qs: Seq<QuestionView>)
    ensures
        questions_of(tagged(test, qs), test) == qs,
    decreases qs.len(),
{
    let e = tagged(test, qs);
    if qs.len() > 0 {
        assert(e.drop_last() =~= tagged(test, qs.drop_last()));
        lemma_questions_of_tagged(test, qs.drop_last());
        assert(e.last().question == qs.last());
        assert(qs.drop_last().push(qs.last()) =~= qs);
    } else {
        assert(qs =~= Seq::<QuestionView>::empty());
    }
}

/// The questions of a test among two runs of entries are those among the
/// first followed by those among the second.
pub proof fn lemma_questions_of_concat(a: Seq<EntryView>, b: Seq<EntryView>, test: Seq<char>)
    ensures
        questions_of(a + b, test) == questions_of(a, test) + questions_of(b, test),
    decreases b.len(),
{
    if b.len() == 0 {
        assert(a + b =~= a);
        assert(questions_of(a, test) + questions_of(b, test) =~= questions_of(a, test));
    } else {
        assert((a + b).drop_last() =~= a + b.drop_last());
        assert((a + b).last() == b.last());
        lemma_questions_of_concat(a, b.drop_last(), test);
        if b.last().test == test {
            assert((questions_of(a, test) + questions_of(b.drop_last(), test)).push(
                b.last().question,
            ) =~= questions_of(a, test) + questions_of(b, test));
        }
    }
}

/// Whether `q` is a question that `test` contains.
pub open spec fn contains_question(entries: Seq<EntryView>, test: Seq<char>, q: QuestionView) -> bool {
    exists|w: int|
        0 <= w < entries.len() && (#[trigger] entries[w]).test == test && entries[w].question == q
}

/// Every question listed for a test is contained in it.
pub proof fn lemma_questions_of_members(entries: Seq<EntryView>, test: Seq<char>)
    ensures
        forall|i: int|
            0 <= i < questions_of(entries, test).len() ==> contains_question(
                entries,
                test,
                #[trigger] questions_of(entries, test)[i],
            ),
    decreases entries.len(),
{
    let qs = questions_of(entries, test);
    if entries.len() > 0 {
        let rest = entries.drop_last();
        let before = questions_of(rest, test);
        lemma_questions_of_members(rest, test);
        assert forall|i: int| 0 <= i < qs.len() implies contains_question(
            entries,
            test,
            #[trigger] qs[i],
        ) by {
            if i < before.len() {
                assert(qs[i] == before[i]);
                assert(contains_question(rest, test, before[i]));
                let w = choose|w: int|
                    0 <= w < rest.len() && (#[trigger] rest[w]).test == test && rest[w].question
                        == before[i];
                assert(entries[w] == rest[w]);
            } else {
                assert(entries[entries.len() - 1].question == qs[i]);
            }
        }
    }
}

/// In a well-formed catalog the questions of every test are sorted by key.
pub proof fn lemma_questions_of_sorted(
    tests: Seq<TestView>,
    entries: Seq<EntryView>,
    test: Seq<char>,
)
    requires
        catalog_wf(tests, entries),
    ensures
        sorted_by_key(questions_of(entries, test)),
    decreases entries.len(),
{
    let qs = questions_of(entries, test);
    if entries.len() > 0 {
        let rest = entries.drop_last();
        let last = entries.last();
        assert(last == entries[entries.len() - 1]);
        assert(catalog_wf(tests, rest)) by {
            assert forall|i: int| 0 <= i < rest.len() implies rest[i] == entries[i] by {}
        }
        lemma_questions_of_sorted(tests, rest, test);
        lemma_questions_of_members(rest, test);
        let before = questions_of(rest, test);
        assert forall|i: int, j: int| 0 <= i < j < qs.len() implies numeric_key(
            #[trigger] qs[i].id,
        ) <= numeric_key(#[trigger] qs[j].id) by {
            if j < before.len() {
                assert(qs[i] == before[i] && qs[j] == before[j]);
            } else {
                assert(qs[i] == before[i]);
                assert(contains_question(rest, test, before[i]));
                let w = choose|w: int|
                    0 <= w < rest.len() && (#[trigger] rest[w]).test == test && rest[w].question
                        == before[i];
                assert(entries[w] == rest[w]);
                assert(qs[j] == last.question);
            }
        }
    }
}

/// Seeding is idempotent: the questions that a seeded test lists are the
/// canonical order of the questions it was seeded with, and seeding again
/// with the same questions, as they were given or as the catalog lists them,
/// gives the same entries.
pub proof fn law_seeding_idempotent(test: Seq<char>, qs: Seq<QuestionView>)
    ensures
        questions_of(tagged(test, canonical(qs)), test) == canonical(qs),
        tagged(test, canonical(canonical(qs))) == tagged(test, canonical(qs)),
        distinct_ids(qs) ==> distinct_ids(canonical(qs)),
{
    lemma_questions_of_tagged(test, canonical(qs));
    lemma_canonical_idempotent(qs);
    lemma_canonical_ids(qs);
}

/// What a test lists once a new test has joined the catalog: the new test
/// lists its questions in canonical order, and every other test lists what it
/// listed before.
pub proof fn lemma_added_listing(
    tests: Seq<TestView>,
    entries: Seq<EntryView>,
    test: Seq<char>,
    qs: Seq<QuestionView>,
    other: Seq<char>,
)
    requires
        catalog_wf(tests, entries),
        !has_test(tests, test),
    ensures
        questions_of(entries + tagged(test, canonical(qs)), test) == canonical(qs),
        other != test ==> questions_of(entries + tagged(test, canonical(qs)), other)
            == questions_of(entries, other),
{
    let c = canonical(qs);
    let new = tagged(test, c);
    lemma_questions_of_concat(entries, new, test);
    lemma_questions_of_concat(entries, new, other);
    lemma_questions_of_tagged(test, c);
    assert forall|i: int| 0 <= i < entries.len() implies (#[trigger] entries[i]).test != test by {
        assert(has_test(tests, entries[i].test));
    }
    lemma_questions_of_absent(entries, test);
    assert(Seq::<QuestionView>::empty() + c =~= c);
    if other != test {
        lemma_questions_of_absent(new, other);
        assert(questions_of(entries, other) + Seq::<QuestionView>::empty() =~= questions_of(
            entries,
            other,
        ));
    }
}

/// The views of a list of entries, in order.
pub open spec fn entries_view(s: Seq<Entry>) -> Seq<EntryView> {
    s.map_values(|e: Entry| e@)
}

/// Whether no two of the questions share an identifier.
fn ids_distinct(questions: &Vec<Question>) -> (b: bool)
    ensures
        b == distinct_ids(questions_view(questions@)),
{
    let ghost qs = questions_view(questions@);
    let mut j: usize = 0;
    while j < questions.len()
        invariant
            j <= questions.len(),
            qs == questions_view(questions@),
            forall|a: int, b: int| 0 <= a < b < j ==> (#[trigger] qs[a]).id != (#[trigger] qs[b]).id,
        decreases questions.len() - j,
    {
        let mut i: usize = 0;
        while i < j
            invariant
                i <= j < questions.len(),
                qs == questions_view(questions@),
                forall|a: int| 0 <= a < i ==> (#[trigger] qs[a]).id != qs[j as int].id,
            decreases j - i,
        {
            if same_text(questions[i].id.as_str(), questions[j].id.as_str()) {
                proof {
                    assert(qs[i as int].id == qs[j as int].id);
                }
                return false;
            }
            i += 1;
        }
        j += 1;
    }
    true
}

impl Catalog {
    /// The tests, in the order in which they were entered.
    pub closed spec fn tests(&self) -> Seq<TestView> {
        tests_view(self.tests@)
    }

    /// The "contains" relation: every question with its test.
    pub closed spec fn entries(&self) -> Seq<EntryView> {
        entries_view(self.entries@)
    }

    /// Whether the catalog is well formed.
    pub open spec fn wf(&self) -> bool {
        catalog_wf(self.tests(), self.entries())
    }

    /// A catalog without tests.
    pub fn new() -> (c: Catalog)
        ensures
            c.wf(),
            c.tests() == Seq::<TestView>::empty(),
            c.entries() == Seq::<EntryView>::empty(),
    {
        let c = Catalog { tests: Vec::new(), entries: Vec::new() };
        proof {
            assert(c.tests() =~= Seq::<TestView>::empty());
            assert(c.entries() =~= Seq::<EntryView>::empty());
        }
        c
    }

    /// Whether a test with this identifier exists.
    pub fn has_test(&self, id: &str) -> (b: bool)
        ensures
            b == has_test(self.tests(), id@),
    {
        let mut i: usize = 0;
        while i < self.tests.len()
            invariant
                i <= self.tests.len(),
                forall|a: int| 0 <= a < i ==> (#[trigger] self.tests()[a]).id != id@,
            decreases self.tests.len() - i,
        {
            if same_text(self.tests[i].id.as_str(), id) {
                proof {
                    assert(self.tests()[i as int].id == id@);
                }
                return true;
            }
            i += 1;
        }
        false
    }

    /// Whether a question with this identifier exists, in whichever test.
    pub fn has_question(&self, id: &str) -> (b: bool)
        ensures
            b == has_question(self.entries(), id@),
    {
        let mut i: usize = 0;
        while i < self.entries.len()
            invariant
                i <= self.entries.len(),
                forall|a: int| 0 <= a < i ==> (#[trigger] self.entries()[a]).question.id != id@,
            decreases self.entries.len() - i,
        {
            if same_text(self.entries[i].question.id.as_str(), id) {
                proof {
                    assert(self.entries()[i as int].question.id == id@);
                }
                return true;
            }
            i += 1;
        }
        false
    }

    /// All tests.
    pub fn list_tests(&self) -> (r: Vec<Test>)
        ensures
            tests_view(r@) == self.tests(),
    {
        let mut r: Vec<Test> = Vec::new();
        let mut i: usize = 0;
        while i < self.tests.len()
            invariant
                i <= self.tests.len(),
                r@.len() == i,
                forall|a: int| 0 <= a < i ==> (#[trigger] r@[a])@ == self.tests@[a]@,
            decreases self.tests.len() - i,
        {
            r.push(self.tests[i].duplicate());
            i += 1;
        }
        proof {
            assert(tests_view(r@) =~= self.tests());
        }
        r
    }

    /// The questions of a test in canonical order, or `NotFound` where no
    /// such test exists.
    pub fn list_questions(&self, test: &str) -> (r: Result<Vec<Question>, Failure>)
        requires
            self.wf(),
        ensures
            match r {
                Ok(v) => {
                    &&& has_test(self.tests(), test@)
                    &&& questions_view(v@) == questions_of(self.entries(), test@)
                    &&& sorted_by_key(questions_view(v@))
                },
                Err(e) => e == Failure::NotFound && !has_test(self.tests(), test@),
            },
    {
        if !self.has_test(test) {
            return Err(Failure::NotFound);
        }
        proof {
            lemma_questions_of_sorted(self.tests(), self.entries(), test@);
        }
        let ghost all = self.entries();
        let mut v: Vec<Question> = Vec::new();
        let mut i: usize = 0;
        proof {
            assert(all.take(0) =~= Seq::<EntryView>::empty());
            assert(questions_view(v@) =~= Seq::<QuestionView>::empty());
        }
        while i < self.entries.len()
            invariant
                i <= self.entries.len(),
                all == self.entries(),
                questions_view(v@) == questions_of(all.take(i as int), test@),
            decreases self.entries.len() - i,
        {
            proof {
                assert(all.take(i + 1).drop_last() =~= all.take(i as int));
                assert(all.take(i + 1).last() == self.entries@[i as int]@);
            }
            if same_text(self.entries[i].test.as_str(), test) {
                let q: Question = self.entries[i].question.duplicate();
                let ghost before = questions_view(v@);
                v.push(q);
                proof {
                    assert(questions_view(v@) =~= before.push(q@));
                }
            }
            i += 1;
        }
        proof {
            assert(all.take(i as int) =~= all);
        }
        Ok(v)
    }

    /// Whether none of the questions has an identifier that the catalog
    /// already holds.
    fn all_fresh(&self, questions: &Vec<Question>) -> (b: bool)
        ensures
            b == (forall|i: int|
                0 <= i < questions@.len() ==> !has_question(
                    self.entries(),
                    (#[trigger] questions_view(questions@)[i]).id,
                )),
    {
        let ghost qs = questions_view(questions@);
        let mut i: usize = 0;
        while i < questions.len()
            invariant
                i <= questions.len(),
                qs == questions_view(questions@),
                forall|a: int| 0 <= a < i ==> !has_question(self.entries(), (#[trigger] qs[a]).id),
            decreases questions.len() - i,
        {
            if self.has_question(questions[i].id.as_str()) {
                proof {
                    assert(has_question(self.entries(), qs[i as int].id));
                }
                return false;
            }
            i += 1;
        }
        true
    }

    /// Enters one more test with its questions. The questions are put into
    /// canonical order. Where the test's identifier or the identifier of one
    /// of the questions is taken, or two of the questions share one, nothing
    /// changes and the failure is `Integrity`.
    pub fn add_test(&mut self, test: Test, questions: Vec<Question>) -> (r: Result<(), Failure>)
        requires
            old(self).wf(),
        ensures
            final(self).wf(),
            match r {
                Ok(_) => {
                    &&& addable(
                        old(self).tests(),
                        old(self).entries(),
                        test@.id,
                        questions_view(questions@),
                    )
                    &&& final(self).tests() == old(self).tests().push(test@)
                    &&& final(self).entries() == old(self).entries() + tagged(
                        test@.id,
                        canonical(questions_view(questions@)),
                    )
                    &&& questions_of(final(self).entries(), test@.id) == canonical(
                        questions_view(questions@),
                    )
                    &&& forall|other: Seq<char>|
                        other != test@.id ==> #[trigger] questions_of(
                            final(self).entries(),
                            other,
                        ) == questions_of(old(self).entries(), other)
                },
                Err(e) => {
                    &&& e == Failure::Integrity
                    &&& !addable(
                        old(self).tests(),
                        old(self).entries(),
                        test@.id,
                        questions_view(questions@),
                    )
                    &&& final(self).tests() == old(self).tests()
                    &&& final(self).entries() == old(self).entries()
                },
            },
    {
        if self.has_test(test.id.as_str()) || !ids_distinct(&questions) || !self.all_fresh(
            &questions,
        ) {
            return Err(Failure::Integrity);
        }
        let ghost qs = questions_view(questions@);
        let ghost old_tests = self.tests();
        let ghost old_entries = self.entries();
        let ghost id = test@.id;
        let sorted: Vec<Question> = sort_questions(questions);
        let ghost c = canonical(qs);
        proof {
            lemma_canonical_sorted(qs);
            lemma_canonical_ids(qs);
            assert(c.take(0) =~= Seq::<QuestionView>::empty());
            assert(old_entries + tagged(id, c.take(0)) =~= old_entries);
        }
        let mut i: usize = 0;
        while i < sorted.len()
            invariant
                i <= sorted.len(),
                questions_view(sorted@) == c,
                test@.id == id,
                self.tests() == old_tests,
                self.entries() == old_entries + tagged(id, c.take(i as int)),
            decreases sorted.len() - i,
        {
            let e = Entry { test: test.id.clone(), question: sorted[i].duplicate() };
            let ghost before = self.entries();
            self.entries.push(e);
            proof {
                assert(self.entries() =~= before.push(e@));
                assert(e@.question == c[i as int]);
                assert(before.push(e@) =~= old_entries + tagged(id, c.take(i + 1)));
            }
            i += 1;
        }
        proof {
            assert(c.take(i as int) =~= c);
        }
        self.tests.push(test);
        proof {
            assert(self.tests() =~= old_tests.push(test@));
            lemma_extended_wf(old_tests, old_entries, test@, qs);
            lemma_added_listing(old_tests, old_entries, id, qs, id);
            assert forall|other: Seq<char>| other != id implies #[trigger] questions_of(
                self.entries(),
                other,
            ) == questions_of(old_entries, other) by {
                lemma_added_listing(old_tests, old_entries, id, qs, other);
            }
        }
        Ok(())
    }

    /// Clears the catalog and enters `test` with its questions in canonical
    /// order. Where two of the questions share an identifier, nothing changes
    /// and the failure is `Integrity`.
    pub fn seed(&mut self, test: Test, questions: Vec<Question>) -> (r: Result<(), Failure>)
        requires
            old(self).wf(),
        ensures
            final(self).wf(),
            match r {
                Ok(_) => {
                    &&& distinct_ids(questions_view(questions@))
                    &&& final(self).tests() == seq![test@]
                    &&& final(self).entries() == tagged(
                        test@.id,
                        canonical(questions_view(questions@)),
                    )
                    &&& questions_of(final(self).entries(), test@.id) == canonical(
                        questions_view(questions@),
                    )
                },
                Err(e) => {
                    &&& e == Failure::Integrity
                    &&& !distinct_ids(questions_view(questions@))
                    &&& final(self).tests() == old(self).tests()
                    &&& final(self).entries() == old(self).entries()
                },
            },
    {
        let mut fresh: Catalog = Catalog::new();
        let ghost qs = questions_view(questions@);
        let ghost t = test@;
        match fresh.add_test(test, questions) {
            Ok(_) => {
                proof {
                    assert(fresh.tests() =~= seq![t]);
                    assert(fresh.entries() =~= tagged(t.id, canonical(qs)));
                }
                *self = fresh;
                Ok(())
            },
            Err(e) => Err(e),
        }
    }
}

/// A well-formed catalog stays well formed when a test that can join it is
/// entered with its questions in canonical order.
pub proof fn lemma_extended_wf(
    tests: Seq<TestView>,
    entries: Seq<EntryView>,
    test: TestView,
    qs: Seq<QuestionView>,
)
    requires
        catalog_wf(tests, entries),
        addable(tests, entries, test.id, qs),
    ensures
        catalog_wf(tests.push(test), entries + tagged(test.id, canonical(qs))),
{
    let c = canonical(qs);
    let t2 = tests.push(test);
    let e2 = entries + tagged(test.id, c);
    let n = entries.len();
    lemma_canonical_sorted(qs);
    lemma_canonical_ids(qs);
    assert forall|i: int, j: int| 0 <= i < j < t2.len() implies (#[trigger] t2[i]).id != (
    #[trigger] t2[j]).id by {
        if j == tests.len() {
            assert(t2[i] == tests[i]);
        } else {
            assert(t2[i] == tests[i] && t2[j] == tests[j]);
        }
    }
    assert forall|i: int| 0 <= i < e2.len() implies has_test(t2, (#[trigger] e2[i]).test) by {
        if i < n {
            assert(e2[i] == entries[i]);
            assert(has_test(tests, entries[i].test));
            let w = choose|w: int| 0 <= w < tests.len() && (#[trigger] tests[w]).id == entries[i].test;
            assert(t2[w] == tests[w]);
        } else {
            assert(t2[tests.len() as int].id == test.id);
        }
    }
    assert forall|i: int, j: int| 0 <= i < j < e2.len() implies (#[trigger] e2[i]).question.id != (
    #[trigger] e2[j]).question.id by {
        if j < n {
            assert(e2[i] == entries[i] && e2[j] == entries[j]);
        } else if i < n {
            assert(e2[i] == entries[i]);
            assert(e2[j].question == c[j - n]);
            assert(qs.contains(c[j - n]));
            let w = choose|w: int| 0 <= w < qs.len() && qs[w] == c[j - n];
            assert(!has_question(entries, qs[w].id));
        } else {
            assert(e2[i].question == c[i - n] && e2[j].question == c[j - n]);
        }
    }
    assert forall|i: int, j: int|
        0 <= i < j < e2.len() && (#[trigger] e2[i]).test == (#[trigger] e2[j]).test implies numeric_key(
        e2[i].question.id,
    ) <= numeric_key(e2[j].question.id) by {
        if j < n {
            assert(e2[i] == entries[i] && e2[j] == entries[j]);
        } else if i < n {
            assert(e2[i] == entries[i]);
            assert(has_test(tests, entries[i].test));
            assert(e2[j].test == test.id);
        } else {
            assert(e2[i].question == c[i - n] && e2[j].question == c[j - n]);
        }
    }
}

} // verus!
