//! The answer store: for a subject and a question, the one choice that the
//! subject made last. An answer is an edge from subject to question that
//! carries the choice; a new answer replaces the edge of the same pair.

use vstd::prelude::*;
use crate::text::same_text;

verus! {

/// An answer: `subject` chose the option at index `choice` of `question`.
pub struct Edge {
    pub subject: String,
    pub question: String,
    pub choice: usize,
}

/// The view of an [`Edge`].
pub struct EdgeView {
    pub subject: Seq<char>,
    pub question: Seq<char>,
    pub choice: nat,
}

impl View for Edge {
    type V = EdgeView;

    open spec fn view(&self) -> EdgeView {
        EdgeView { subject: self.subject@, question: self.question@, choice: self.choice as nat }
    }
}

/// The views of a list of edges, in order.
pub open spec fn edges_view(s: Seq<Edge>) -> Seq<EdgeView> {
    s.map_values(|e: Edge| e@)
}

/// The views of submitted answers: question and choice, in order.
pub open spec fn answers_view(s: Seq<(String, usize)>) -> Seq<(Seq<char>, nat)> {
    s.map_values(|a: (String, usize)| (a.0@, a.1 as nat))
}

/// Whether `e` is an answer of `subject` to `question`.
pub open spec fn joins(e: EdgeView, subject: Seq<char>, question: Seq<char>) -> bool {
    e.subject == subject && e.question == question
}

/// How many edges lead from `subject` to `question`.
pub open spec fn edge_count(edges: Seq<EdgeView>, subject: Seq<char>, question: Seq<char>) -> nat
    decreases edges.len(),
{
    if edges.len() == 0 {
        0
    } else if joins(edges.last(), subject, question) {
        edge_count(edges.drop_last(), subject, question) + 1
    } else {
        edge_count(edges.drop_last(), subject, question)
    }
}

/// The choice on the latest edge from `subject` to `question`, if there is
/// one.
pub open spec fn choice_of(edges: Seq<EdgeView>, subject: Seq<char>, question: Seq<char>) -> Option<
    nat,
>
    decreases edges.len(),
{
    if edges.len() == 0 {
        None
    } else if joins(edges.last(), subject, question) {
        Some(edges.last().choice)
    } else {
        choice_of(edges.drop_last(), subject, question)
    }
}

/// The edges that do not lead from `subject` to `question`, in order.
pub open spec fn without(edges: Seq<EdgeView>, subject: Seq<char>, question: Seq<char>) -> Seq<
    EdgeView,
>
    decreases edges.len(),
{
    if edges.len() == 0 {
        Seq::empty()
    } else if joins(edges.last(), subject, question) {
        without(edges.drop_last(), subject, question)
    } else {
        without(edges.drop_last(), subject, question).push(edges.last())
    }
}

/// The edges after `subject` answered `question` with `choice`: every edge of
/// the pair is deleted, then one with the new choice is created.
pub open spec fn replaced(
    edges: Seq<EdgeView>,
    subject: Seq<char>,
    question: Seq<char>,
    choice: nat,
) -> Seq<EdgeView> {
    without(edges, subject, question).push(EdgeView { subject, question, choice })
}

/// The edges after `subject` submitted `answers` one after the other.
pub open spec fn submitted(
    edges: Seq<EdgeView>,
    subject: Seq<char>,
    answers: Seq<(Seq<char>, nat)>,
) -> Seq<EdgeView>
    decreases answers.len(),
{
    if answers.len() == 0 {
        edges
    } else {
        replaced(
            submitted(edges, subject, answers.drop_last()),
            subject,
            answers.last().0,
            answers.last().1,
        )
    }
}

/// The edges after `subject` answered `question` once for each of `choices`,
/// in order.
pub open spec fn resubmitted(
    edges: Seq<EdgeView>,
    subject: Seq<char>,
    question: Seq<char>,
    choices: Seq<nat>,
) -> Seq<EdgeView>
    decreases choices.len(),
{
    if choices.len() == 0 {
        edges
    } else {
        replaced(
            resubmitted(edges, subject, question, choices.drop_last()),
            subject,
            question,
            choices.last(),
        )
    }
}

/// What holds of every answer store: no two edges join the same subject and
/// question.
pub open spec fn answers_wf(edges: Seq<EdgeView>) -> bool {
    forall|i: int, j: int|
        0 <= i < j < edges.len() ==> !joins(#[trigger] edges[i], (#[trigger] edges[j]).subject, edges[j].question)
}

/// Every edge that `without` keeps is an edge of the store that does not join
/// the pair, and edges keep their order.
pub proof fn lemma_without(edges: Seq<EdgeView>, subject: Seq<char>, question: Seq<char>)
    ensures
        without(edges, subject, question).len() <= edges.len(),
        edge_count(without(edges, subject, question), subject, question) == 0,
        choice_of(without(edges, subject, question), subject, question) == None::<nat>,
        forall|i: int|
            0 <= i < without(edges, subject, question).len() ==> {
                &&& !joins(#[trigger] without(edges, subject, question)[i], subject, question)
                &&& edges.contains(without(edges, subject, question)[i])
            },
        answers_wf(edges) ==> answers_wf(without(edges, subject, question)),
    decreases edges.len(),
{
    let w = without(edges, subject, question);
    if edges.len() > 0 {
        let rest = edges.drop_last();
        let last = edges.last();
        let wr = without(rest, subject, question);
        lemma_without(rest, subject, question);
        assert(last == edges[edges.len() - 1]);
        assert forall|i: int| 0 <= i < w.len() implies {
            &&& !joins(#[trigger] w[i], subject, question)
            &&& edges.contains(w[i])
        } by {
            if i < wr.len() {
                assert(w[i] == wr[i]);
                assert(rest.contains(wr[i]));
                let k = choose|k: int| 0 <= k < rest.len() && rest[k] == wr[i];
                assert(edges[k] == wr[i]);
            }
        }
        if answers_wf(edges) {
            assert(answers_wf(rest)) by {
                assert forall|i: int, j: int| 0 <= i < j < rest.len() implies !joins(
                    #[trigger] rest[i],
                    (#[trigger] rest[j]).subject,
                    rest[j].question,
                ) by {
                    assert(rest[i] == edges[i] && rest[j] == edges[j]);
                }
            }
            assert forall|i: int, j: int| 0 <= i < j < w.len() implies !joins(
                #[trigger] w[i],
                (#[trigger] w[j]).subject,
                w[j].question,
            ) by {
                if j < wr.len() {
                    assert(w[i] == wr[i] && w[j] == wr[j]);
                } else {
                    assert(w[i] == wr[i]);
                    assert(rest.contains(wr[i]));
                    let k = choose|k: int| 0 <= k < rest.len() && rest[k] == wr[i];
                    assert(edges[k] == wr[i]);
                    assert(w[j] == last);
                }
            }
        }
        if !joins(last, subject, question) {
            assert(w.drop_last() =~= wr);
            assert(w.last() == last);
        }
    }
}

/// Deleting the edges of one pair leaves every other pair its edges and its
/// choice.
pub proof fn lemma_without_other(
    edges: Seq<EdgeView>,
    subject: Seq<char>,
    question: Seq<char>,
    s: Seq<char>,
    q: Seq<char>,
)
    requires
        !(s == subject && q == question),
    ensures
        choice_of(without(edges, subject, question), s, q) == choice_of(edges, s, q),
        edge_count(without(edges, subject, question), s, q) == edge_count(edges, s, q),
    decreases edges.len(),
{
    if edges.len() > 0 {
        let w = without(edges, subject, question);
        let rest = edges.drop_last();
        lemma_without_other(rest, subject, question, s, q);
        if !joins(edges.last(), subject, question) {
            assert(w.drop_last() =~= without(rest, subject, question));
            assert(w.last() == edges.last());
        }
    }
}

/// After an answer, the pair has exactly one edge, which carries the new
/// choice, and a well-formed store stays well formed.
pub proof fn lemma_replaced(
    edges: Seq<EdgeView>,
    subject: Seq<char>,
    question: Seq<char>,
    choice: nat,
)
    ensures
        edge_count(replaced(edges, subject, question, choice), subject, question) == 1,
        choice_of(replaced(edges, subject, question, choice), subject, question) == Some(choice),
        answers_wf(edges) ==> answers_wf(replaced(edges, subject, question, choice)),
{
    let w = without(edges, subject, question);
    let e = EdgeView { subject, question, choice };
    let r = replaced(edges, subject, question, choice);
    lemma_without(edges, subject, question);
    assert(r.drop_last() =~= w);
    assert(r.last() == e);
    if answers_wf(edges) {
        assert forall|i: int, j: int| 0 <= i < j < r.len() implies !joins(
            #[trigger] r[i],
            (#[trigger] r[j]).subject,
            r[j].question,
        ) by {
            if j < w.len() {
                assert(r[i] == w[i] && r[j] == w[j]);
            } else {
                assert(r[i] == w[i]);
            }
        }
    }
}

/// An answer leaves every other pair its edges and its choice.
pub proof fn lemma_replaced_other(
    edges: Seq<EdgeView>,
    subject: Seq<char>,
    question: Seq<char>,
    choice: nat,
    s: Seq<char>,
    q: Seq<char>,
)
    requires
        !(s == subject && q == question),
    ensures
        choice_of(replaced(edges, subject, question, choice), s, q) == choice_of(edges, s, q),
        edge_count(replaced(edges, subject, question, choice), s, q) == edge_count(edges, s, q),
{
    let r = replaced(edges, subject, question, choice);
    lemma_without_other(edges, subject, question, s, q);
    assert(r.drop_last() =~= without(edges, subject, question));
    assert(!joins(r.last(), s, q));
}

/// Submitting the same answer twice leaves what submitting it once leaves:
/// exactly one edge for the pair.
pub proof fn law_same_answer_twice(
    edges: Seq<EdgeView>,
    subject: Seq<char>,
    question: Seq<char>,
    choice: nat,
)
    ensures
        replaced(replaced(edges, subject, question, choice), subject, question, choice)
            == replaced(edges, subject, question, choice),
        edge_count(
            replaced(replaced(edges, subject, question, choice), subject, question, choice),
            subject,
            question,
        ) == 1,
{
    let once = replaced(edges, subject, question, choice);
    let w = without(edges, subject, question);
    lemma_replaced(edges, subject, question, choice);
    lemma_replaced(once, subject, question, choice);
    lemma_without(edges, subject, question);
    lemma_without_clean(w, subject, question);
    assert(once.drop_last() =~= w);
    assert(without(once, subject, question) == w);
}

/// Where no edge joins the pair, `without` keeps every edge.
pub proof fn lemma_without_clean(edges: Seq<EdgeView>, subject: Seq<char>, question: Seq<char>)
    requires
        forall|i: int| 0 <= i < edges.len() ==> !joins(#[trigger] edges[i], subject, question),
    ensures
        without(edges, subject, question) == edges,
    decreases edges.len(),
{
    if edges.len() > 0 {
        let rest = edges.drop_last();
        assert(edges.last() == edges[edges.len() - 1]);
        assert forall|i: int| 0 <= i < rest.len() implies !joins(
            #[trigger] rest[i],
            subject,
            question,
        ) by {
            assert(rest[i] == edges[i]);
        }
        lemma_without_clean(rest, subject, question);
        assert(rest.push(edges.last()) =~= edges);
    } else {
        assert(edges =~= Seq::<EdgeView>::empty());
    }
}

/// However often a subject answers one question, in the end the pair has
/// exactly one edge, and it carries the choice that was submitted last.
pub proof fn law_latest_answer_wins(
    edges: Seq<EdgeView>,
    subject: Seq<char>,
    question: Seq<char>,
    choices: Seq<nat>,
)
    requires
        choices.len() > 0,
    ensures
        choice_of(resubmitted(edges, subject, question, choices), subject, question) == Some(
            choices.last(),
        ),
        edge_count(resubmitted(edges, subject, question, choices), subject, question) == 1,
{
    lemma_replaced(
        resubmitted(edges, subject, question, choices.drop_last()),
        subject,
        question,
        choices.last(),
    );
}

/// In a well-formed store a pair of subject and question has at most one
/// edge, and it has one exactly where the subject has a choice for the
/// question.
pub proof fn law_at_most_one_edge(edges: Seq<EdgeView>, subject: Seq<char>, question: Seq<char>)
    requires
        answers_wf(edges),
    ensures
        edge_count(edges, subject, question) <= 1,
        edge_count(edges, subject, question) == 1 <==> choice_of(edges, subject, question) is Some,
    decreases edges.len(),
{
    if edges.len() > 0 {
        let rest = edges.drop_last();
        let last = edges.last();
        assert(last == edges[edges.len() - 1]);
        assert(answers_wf(rest)) by {
            assert forall|i: int, j: int| 0 <= i < j < rest.len() implies !joins(
                #[trigger] rest[i],
                (#[trigger] rest[j]).subject,
                rest[j].question,
            ) by {
                assert(rest[i] == edges[i] && rest[j] == edges[j]);
            }
        }
        law_at_most_one_edge(rest, subject, question);
        if joins(last, subject, question) {
            assert forall|i: int| 0 <= i < rest.len() implies !joins(
                #[trigger] rest[i],
                subject,
                question,
            ) by {
                assert(rest[i] == edges[i]);
            }
            lemma_without_clean(rest, subject, question);
            lemma_without(rest, subject, question);
        }
    }
}

/// Whether `e` is one of `edges` or an answer of `subject` to one of the
/// questions of `answers`.
pub open spec fn old_or_submitted(
    e: EdgeView,
    edges: Seq<EdgeView>,
    subject: Seq<char>,
    answers: Seq<(Seq<char>, nat)>,
) -> bool {
    edges.contains(e) || (e.subject == subject && exists|k: int|
        0 <= k < answers.len() && (#[trigger] answers[k]).0 == e.question)
}

/// After a submission every edge is an edge from before or an answer of the
/// subject to a question of the submission.
pub proof fn lemma_submitted_members(
    edges: Seq<EdgeView>,
    subject: Seq<char>,
    answers: Seq<(Seq<char>, nat)>,
)
    ensures
        forall|i: int|
            0 <= i < submitted(edges, subject, answers).len() ==> old_or_submitted(
                #[trigger] submitted(edges, subject, answers)[i],
                edges,
                subject,
                answers,
            ),
    decreases answers.len(),
{
    let after = submitted(edges, subject, answers);
    if answers.len() > 0 {
        let rest = answers.drop_last();
        let mid = submitted(edges, subject, rest);
        let w = without(mid, subject, answers.last().0);
        lemma_submitted_members(edges, subject, rest);
        lemma_without(mid, subject, answers.last().0);
        assert forall|i: int| 0 <= i < after.len() implies old_or_submitted(
            #[trigger] after[i],
            edges,
            subject,
            answers,
        ) by {
            if i < w.len() {
                assert(after[i] == w[i]);
                assert(mid.contains(w[i]));
                let k = choose|k: int| 0 <= k < mid.len() && mid[k] == w[i];
                assert(old_or_submitted(mid[k], edges, subject, rest));
                if !edges.contains(mid[k]) {
                    let a = choose|a: int|
                        0 <= a < rest.len() && (#[trigger] rest[a]).0 == mid[k].question;
                    assert(answers[a] == rest[a]);
                }
            } else {
                assert(answers[answers.len() - 1].0 == after[i].question);
            }
        }
    } else {
        assert forall|i: int| 0 <= i < after.len() implies old_or_submitted(
            #[trigger] after[i],
            edges,
            subject,
            answers,
        ) by {
            assert(edges.contains(edges[i]));
        }
    }
}

/// The choice of the latest answer to `question` among `answers`, if there
/// is one.
pub open spec fn last_choice(answers: Seq<(Seq<char>, nat)>, question: Seq<char>) -> Option<nat>
    decreases answers.len(),
{
    if answers.len() == 0 {
        None
    } else if answers.last().0 == question {
        Some(answers.last().1)
    } else {
        last_choice(answers.drop_last(), question)
    }
}

/// The final map wins: after a submission, a question that the subject
/// answered in it has exactly one edge from the subject, with the choice of
/// the latest answer to it; every other pair of subject and question has the
/// edges and the choice it had.
pub proof fn law_final_map_wins(
    edges: Seq<EdgeView>,
    subject: Seq<char>,
    answers: Seq<(Seq<char>, nat)>,
    s: Seq<char>,
    q: Seq<char>,
)
    ensures
        s == subject && last_choice(answers, q) is Some ==> {
            &&& choice_of(submitted(edges, subject, answers), s, q) == last_choice(answers, q)
            &&& edge_count(submitted(edges, subject, answers), s, q) == 1
        },
        !(s == subject && last_choice(answers, q) is Some) ==> {
            &&& choice_of(submitted(edges, subject, answers), s, q) == choice_of(edges, s, q)
            &&& edge_count(submitted(edges, subject, answers), s, q) == edge_count(edges, s, q)
        },
    decreases answers.len(),
{
    if answers.len() > 0 {
        let rest = answers.drop_last();
        let mid = submitted(edges, subject, rest);
        law_final_map_wins(edges, subject, rest, s, q);
        if s == subject && q == answers.last().0 {
            lemma_replaced(mid, subject, answers.last().0, answers.last().1);
        } else {
            lemma_replaced_other(mid, subject, answers.last().0, answers.last().1, s, q);
        }
    }
}

/// Submitting the same answers twice leaves what submitting them once
/// leaves: every pair of subject and question has the same number of edges
/// and the same choice, and a question answered in the submission has exactly
/// one edge from the subject.
pub proof fn law_same_submission_twice(
    edges: Seq<EdgeView>,
    subject: Seq<char>,
    answers: Seq<(Seq<char>, nat)>,
    s: Seq<char>,
    q: Seq<char>,
)
    ensures
        choice_of(submitted(submitted(edges, subject, answers), subject, answers), s, q)
            == choice_of(submitted(edges, subject, answers), s, q),
        edge_count(submitted(submitted(edges, subject, answers), subject, answers), s, q)
            == edge_count(submitted(edges, subject, answers), s, q),
        s == subject && last_choice(answers, q) is Some ==> edge_count(
            submitted(submitted(edges, subject, answers), subject, answers),
            s,
            q,
        ) == 1,
{
    law_final_map_wins(edges, subject, answers, s, q);
    law_final_map_wins(submitted(edges, subject, answers), subject, answers, s, q);
}

/// The "says" relation.
pub struct AnswerStore {
    edges: Vec<Edge>,
}

impl AnswerStore {
    /// The edges, oldest first.
    pub closed spec fn edges(&self) -> Seq<EdgeView> {
        edges_view(self.edges@)
    }

    /// Whether the store is well formed.
    pub open spec fn wf(&self) -> bool {
        answers_wf(self.edges())
    }

    /// A store without answers.
    pub fn new() -> (a: AnswerStore)
        ensures
            a.wf(),
            a.edges() == Seq::<EdgeView>::empty(),
    {
        let a = AnswerStore { edges: Vec::new() };
        proof {
            assert(a.edges() =~= Seq::<EdgeView>::empty());
        }
        a
    }

    /// Deletes every answer.
    pub fn clear(&mut self)
        ensures
            final(self).wf(),
            final(self).edges() == Seq::<EdgeView>::empty(),
    {
        self.edges = Vec::new();
        proof {
            assert(self.edges() =~= Seq::<EdgeView>::empty());
        }
    }

    /// The choice that `subject` made last for `question`, if any.
    pub fn choice(&self, subject: &str, question: &str) -> (c: Option<usize>)
        ensures
            match c {
                Some(v) => choice_of(self.edges(), subject@, question@) == Some(v as nat),
                None => choice_of(self.edges(), subject@, question@) is None,
            },
    {
        let ghost all = self.edges();
        let mut c: Option<usize> = None;
        let mut i: usize = 0;
        proof {
            assert(all.take(0) =~= Seq::<EdgeView>::empty());
        }
        while i < self.edges.len()
            invariant
                i <= self.edges.len(),
                all == self.edges(),
                match c {
                    Some(v) => choice_of(all.take(i as int), subject@, question@) == Some(v as nat),
                    None => choice_of(all.take(i as int), subject@, question@) is None,
                },
            decreases self.edges.len() - i,
        {
            proof {
                assert(all.take(i + 1).drop_last() =~= all.take(i as int));
                assert(all.take(i + 1).last() == self.edges@[i as int]@);
            }
            if same_text(self.edges[i].subject.as_str(), subject) && same_text(
                self.edges[i].question.as_str(),
                question,
            ) {
                c = Some(self.edges[i].choice);
            }
            i += 1;
        }
        proof {
            assert(all.take(i as int) =~= all);
        }
        c
    }

    /// How many edges lead from `subject` to `question`.
    pub fn count(&self, subject: &str, question: &str) -> (n: usize)
        ensures
            n as nat == edge_count(self.edges(), subject@, question@),
    {
        let ghost all = self.edges();
        let mut n: usize = 0;
        let mut i: usize = 0;
        proof {
            assert(all.take(0) =~= Seq::<EdgeView>::empty());
        }
        while i < self.edges.len()
            invariant
                i <= self.edges.len(),
                all == self.edges(),
                n <= i,
                n as nat == edge_count(all.take(i as int), subject@, question@),
            decreases self.edges.len() - i,
        {
            proof {
                assert(all.take(i + 1).drop_last() =~= all.take(i as int));
                assert(all.take(i + 1).last() == self.edges@[i as int]@);
            }
            if same_text(self.edges[i].subject.as_str(), subject) && same_text(
                self.edges[i].question.as_str(),
                question,
            ) {
                n += 1;
            }
            i += 1;
        }
        proof {
            assert(all.take(i as int) =~= all);
        }
        n
    }

    /// Records that `subject` answered `question` with `choice`: the edges of
    /// the pair are deleted and one with the new choice is created.
    pub fn replace(&mut self, subject: &str, question: &str, choice: usize)
        requires
            old(self).wf(),
        ensures
            final(self).wf(),
            final(self).edges() == replaced(
                old(self).edges(),
                subject@,
                question@,
                choice as nat,
            ),
    {
        let ghost all = self.edges();
        let mut kept: Vec<Edge> = Vec::new();
        let mut i: usize = 0;
        proof {
            assert(all.take(0) =~= Seq::<EdgeView>::empty());
            assert(edges_view(kept@) =~= Seq::<EdgeView>::empty());
        }
        while i < self.edges.len()
            invariant
                i <= self.edges.len(),
                all == self.edges(),
                edges_view(kept@) == without(all.take(i as int), subject@, question@),
            decreases self.edges.len() - i,
        {
            proof {
                assert(all.take(i + 1).drop_last() =~= all.take(i as int));
                assert(all.take(i + 1).last() == self.edges@[i as int]@);
            }
            let e: &Edge = &self.edges[i];
            if !(same_text(e.subject.as_str(), subject) && same_text(e.question.as_str(), question)) {
                let copy = Edge {
                    subject: e.subject.clone(),
                    question: e.question.clone(),
                    choice: e.choice,
                };
                let ghost before = edges_view(kept@);
                kept.push(copy);
                proof {
                    assert(edges_view(kept@) =~= before.push(copy@));
                }
            }
            i += 1;
        }
        let edge = Edge {
            subject: String::from_str(subject),
            question: String::from_str(question),
            choice,
        };
        let ghost before = edges_view(kept@);
        kept.push(edge);
        proof {
            assert(all.take(i as int) =~= all);
            assert(edges_view(kept@) =~= before.push(edge@));
            lemma_replaced(all, subject@, question@, choice as nat);
        }
        self.edges = kept;
    }

    /// Records the answers of `subject` one after the other, so that of two
    /// answers to one question the later stays.
    pub fn submit(&mut self, subject: &str, answers: &Vec<(String, usize)>)
        requires
            old(self).wf(),
        ensures
            final(self).wf(),
            final(self).edges() == submitted(old(self).edges(), subject@, answers_view(answers@)),
    {
        let ghost start = self.edges();
        let ghost all = answers_view(answers@);
        let mut i: usize = 0;
        proof {
            assert(all.take(0) =~= Seq::<(Seq<char>, nat)>::empty());
        }
        while i < answers.len()
            invariant
                i <= answers.len(),
                all == answers_view(answers@),
                self.wf(),
                self.edges() == submitted(start, subject@, all.take(i as int)),
            decreases answers.len() - i,
        {
            proof {
                assert(all.take(i + 1).drop_last() =~= all.take(i as int));
                assert(all.take(i + 1).last() == (answers@[i as int].0@, answers@[i as int].1 as nat));
            }
            self.replace(subject, answers[i].0.as_str(), answers[i].1);
            i += 1;
        }
        proof {
            assert(all.take(i as int) =~= all);
        }
    }
}

} // verus!
