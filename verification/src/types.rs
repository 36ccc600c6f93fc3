//! The values that cross the library's boundary, and their mathematical views.

use vstd::prelude::*;
use uuid::Uuid;

verus! {

/// One choice of a question: the score it contributes and the text shown.
#[derive(Debug, Clone)]
pub struct Opt {
    pub value: usize,
    pub label: String,
}

/// A question with its choices in presentation order.
#[derive(Debug, Clone)]
pub struct Question {
    pub id: String,
    pub prompt: String,
    pub options: Vec<Opt>,
}

/// One line of a scored test: a question and the choice the subject made.
#[derive(Debug, Clone)]
pub struct TestResultRecord {
    pub answer_txt: String,
    pub answer_value: usize,
    pub question_txt: String,
    pub question_id: String,
}

/// A named questionnaire.
#[derive(Debug, Clone)]
pub struct Test {
    pub id: String,
    pub name: String,
}

/// A subject: the person who takes the tests. `id` addresses the subject's
/// own pages; `retrieval_id` is a second identifier for collecting results.
#[derive(Debug, Clone)]
pub struct User {
    pub id: String,
    pub retrieval_id: Uuid,
}

/// A submission: the subject, and for each answered question the index of
/// the chosen option. Of two answers to one question the later counts.
#[derive(Debug, Clone)]
pub struct Data {
    pub user: User,
    pub q: Vec<(String, usize)>,
}

/// The view of a [`User`]: its identifier as characters, and its retrieval
/// identifier as it is.
pub struct UserView {
    pub id: Seq<char>,
    pub retrieval_id: Uuid,
}

/// The view of an [`Opt`].
pub struct OptView {
    pub value: nat,
    pub label: Seq<char>,
}

/// The view of a [`Question`].
pub struct QuestionView {
    pub id: Seq<char>,
    pub prompt: Seq<char>,
    pub options: Seq<OptView>,
}

/// The view of a [`TestResultRecord`].
pub struct RowView {
    pub question_id: Seq<char>,
    pub question_txt: Seq<char>,
    pub answer_txt: Seq<char>,
    pub answer_value: nat,
}

/// The view of a [`Test`].
pub struct TestView {
    pub id: Seq<char>,
    pub name: Seq<char>,
}

impl View for Opt {
    type V = OptView;

    open spec fn view(&self) -> OptView {
        OptView { value: self.value as nat, label: self.label@ }
    }
}

impl View for Question {
    type V = QuestionView;

    open spec fn view(&self) -> QuestionView {
        QuestionView { id: self.id@, prompt: self.prompt@, options: opts_view(self.options@) }
    }
}

impl View for TestResultRecord {
    type V = RowView;

    open spec fn view(&self) -> RowView {
        RowView {
            question_id: self.question_id@,
            question_txt: self.question_txt@,
            answer_txt: self.answer_txt@,
            answer_value: self.answer_value as nat,
        }
    }
}

impl View for User {
    type V = UserView;

    open spec fn view(&self) -> UserView {
        UserView { id: self.id@, retrieval_id: self.retrieval_id }
    }
}

impl View for Test {
    type V = TestView;

    open spec fn view(&self) -> TestView {
        TestView { id: self.id@, name: self.name@ }
    }
}

/// The views of a list of choices, in order.
pub open spec fn opts_view(s: Seq<Opt>) -> Seq<OptView> {
    s.map_values(|o: Opt| o@)
}

/// The views of a list of questions, in order.
pub open spec fn questions_view(s: Seq<Question>) -> Seq<QuestionView> {
    s.map_values(|q: Question| q@)
}

/// The views of a list of scored rows, in order.
pub open spec fn rows_view(s: Seq<TestResultRecord>) -> Seq<RowView> {
    s.map_values(|r: TestResultRecord| r@)
}

/// The views of a list of strings, in order.
pub open spec fn strings_view(s: Seq<String>) -> Seq<Seq<char>> {
    s.map_values(|t: String| t@)
}

/// The views of a list of tests, in order.
pub open spec fn tests_view(s: Seq<Test>) -> Seq<TestView> {
    s.map_values(|t: Test| t@)
}

impl Opt {
    /// A copy with the same view.
    pub fn duplicate(&self) -> (r: Opt)
        ensures
            r@ == self@,
    {
        Opt { value: self.value, label: self.label.clone() }
    }
}

impl Question {
    /// A copy with the same view.
    pub fn duplicate(&self) -> (r: Question)
        ensures
            r@ == self@,
    {
        let mut options: Vec<Opt> = Vec::new();
        let mut i: usize = 0;
        while i < self.options.len()
            invariant
                i <= self.options.len(),
                options@.len() == i,
                forall|j: int| 0 <= j < i ==> (#[trigger] options@[j])@ == self.options@[j]@,
            decreases self.options.len() - i,
        {
            options.push(self.options[i].duplicate());
            i += 1;
        }
        proof {
            assert(opts_view(options@) =~= opts_view(self.options@));
        }
        Question { id: self.id.clone(), prompt: self.prompt.clone(), options }
    }
}

impl User {
    /// A copy with the same view.
    pub fn duplicate(&self) -> (r: User)
        ensures
            r@ == self@,
    {
        User { id: self.id.clone(), retrieval_id: self.retrieval_id.clone() }
    }
}

impl Test {
    /// A copy with the same view.
    pub fn duplicate(&self) -> (r: Test)
        ensures
            r@ == self@,
    {
        Test { id: self.id.clone(), name: self.name.clone() }
    }
}

} // verus!
