//! The scoring engine: the answers of a subject joined to the questions of a
//! test, in the order of the questions, and their total.

use vstd::prelude::*;
use crate::answers::{AnswerStore, EdgeView, choice_of, replaced, lemma_replaced_other};
use crate::error::Failure;
use crate::order::{numeric_key, sorted_by_key};
use crate::types::{Question, QuestionView, RowView, TestResultRecord, questions_view, rows_view};

verus! {

/// The row for a question that was answered with the option at index
/// `choice`.
pub open spec fn row_of(q: QuestionView, choice: nat) -> RowView
    recommends
        choice < q.options.len(),
{
    RowView {
        question_id: q.id,
        question_txt: q.prompt,
        answer_txt: q.options[choice as int].label,
        answer_value: q.options[choice as int].value,
    }
}

/// Whether every answer of `subject` to one of `questions` points at one of
/// that question's options.
pub open spec fn in_range(questions: Seq<QuestionView>, edges: Seq<EdgeView>, subject: Seq<char>) -> bool {
    forall|i: int|
        0 <= i < questions.len() ==> match choice_of(edges, subject, (#[trigger] questions[i]).id) {
            Some(c) => c < questions[i].options.len(),
            None => true,
        }
}

/// The rows of `subject` for `questions`: one for each question that the
/// subject answered, in the order of the questions. A question without an
/// answer has no row.
pub open spec fn scored(questions: Seq<QuestionView>, edges: Seq<EdgeView>, subject: Seq<char>) -> Seq<
    RowView,
>
    decreases questions.len(),
{
    if questions.len() == 0 {
        Seq::empty()
    } else {
        match choice_of(edges, subject, questions.last().id) {
            Some(c) => scored(questions.drop_last(), edges, subject).push(
                row_of(questions.last(), c),
            ),
            None => scored(questions.drop_last(), edges, subject),
        }
    }
}

/// The sum of the values of the rows.
pub open spec fn total(rows: Seq<RowView>) -> nat
    decreases rows.len(),
{
    if rows.len() == 0 {
        0
    } else {
        total(rows.drop_last()) + rows.last().answer_value
    }
}

/// The rows depend on nothing but the subject's choice for each of the
/// questions: two stores that agree on those give the same rows in the same
/// order, and so the same total.
pub proof fn law_same_answers_same_rows(
    questions: Seq<QuestionView>,
    first: Seq<EdgeView>,
    second: Seq<EdgeView>,
    subject: Seq<char>,
)
    requires
        forall|i: int|
            0 <= i < questions.len() ==> choice_of(first, subject, (#[trigger] questions[i]).id)
                == choice_of(second, subject, questions[i].id),
    ensures
        scored(questions, first, subject) == scored(questions, second, subject),
        total(scored(questions, first, subject)) == total(scored(questions, second, subject)),
        in_range(questions, first, subject) == in_range(questions, second, subject),
    decreases questions.len(),
{
    if questions.len() > 0 {
        let rest = questions.drop_last();
        assert forall|i: int| 0 <= i < rest.len() implies choice_of(
            first,
            subject,
            (#[trigger] rest[i]).id,
        ) == choice_of(second, subject, rest[i].id) by {
            assert(rest[i] == questions[i]);
        }
        law_same_answers_same_rows(rest, first, second, subject);
        assert(questions.last() == questions[questions.len() - 1]);
    }
}

/// An answer to a question that is not among `questions` changes none of the
/// rows.
pub proof fn law_outside_answer_excluded(
    questions: Seq<QuestionView>,
    edges: Seq<EdgeView>,
    subject: Seq<char>,
    answerer: Seq<char>,
    question: Seq<char>,
    choice: nat,
)
    requires
        forall|i: int| 0 <= i < questions.len() ==> (#[trigger] questions[i]).id != question,
    ensures
        scored(questions, replaced(edges, answerer, question, choice), subject) == scored(
            questions,
            edges,
            subject,
        ),
{
    let after = replaced(edges, answerer, question, choice);
    assert forall|i: int| 0 <= i < questions.len() implies choice_of(
        after,
        subject,
        (#[trigger] questions[i]).id,
    ) == choice_of(edges, subject, questions[i].id) by {
        lemma_replaced_other(edges, answerer, question, choice, subject, questions[i].id);
    }
    law_same_answers_same_rows(questions, after, edges, subject);
}

/// A subject who answered none of the questions has no rows, and so a total
/// of zero.
pub proof fn law_no_answers_no_rows(
    questions: Seq<QuestionView>,
    edges: Seq<EdgeView>,
    subject: Seq<char>,
)
    requires
        forall|i: int|
            0 <= i < questions.len() ==> choice_of(edges, subject, (#[trigger] questions[i]).id)
                is None,
    ensures
        scored(questions, edges, subject) == Seq::<RowView>::empty(),
        total(scored(questions, edges, subject)) == 0,
        in_range(questions, edges, subject),
    decreases questions.len(),
{
    if questions.len() > 0 {
        let rest = questions.drop_last();
        assert forall|i: int| 0 <= i < rest.len() implies choice_of(
            edges,
            subject,
            (#[trigger] rest[i]).id,
        ) is None by {
            assert(rest[i] == questions[i]);
        }
        law_no_answers_no_rows(rest, edges, subject);
        assert(questions.last() == questions[questions.len() - 1]);
    }
}

/// Every row belongs to one of the questions, and the rows of questions that
/// are sorted by key are sorted by the key of their question.
pub proof fn lemma_rows_follow_questions(
    questions: Seq<QuestionView>,
    edges: Seq<EdgeView>,
    subject: Seq<char>,
)
    ensures
        scored(questions, edges, subject).len() <= questions.len(),
        forall|i: int|
            0 <= i < scored(questions, edges, subject).len() ==> exists|k: int|
                0 <= k < questions.len() && (#[trigger] questions[k]).id == (#[trigger] scored(
                    questions,
                    edges,
                    subject,
                )[i]).question_id,
        sorted_by_key(questions) ==> forall|i: int, j: int|
            0 <= i < j < scored(questions, edges, subject).len() ==> numeric_key(
                (#[trigger] scored(questions, edges, subject)[i]).question_id,
            ) <= numeric_key((#[trigger] scored(questions, edges, subject)[j]).question_id),
    decreases questions.len(),
{
    let rows = scored(questions, edges, subject);
    if questions.len() > 0 {
        let rest = questions.drop_last();
        let last = questions.last();
        let before = scored(rest, edges, subject);
        lemma_rows_follow_questions(rest, edges, subject);
        assert(last == questions[questions.len() - 1]);
        assert forall|i: int| 0 <= i < rows.len() implies exists|k: int|
            0 <= k < questions.len() && (#[trigger] questions[k]).id == (#[trigger] rows[i]).question_id by {
            if i < before.len() {
                assert(rows[i] == before[i]);
                let k = choose|k: int|
                    0 <= k < rest.len() && (#[trigger] rest[k]).id == before[i].question_id;
                assert(questions[k] == rest[k]);
            } else {
                assert(questions[questions.len() - 1].id == rows[i].question_id);
            }
        }
        if sorted_by_key(questions) {
            assert(sorted_by_key(rest)) by {
                assert forall|i: int, j: int| 0 <= i < j < rest.len() implies numeric_key(
                    #[trigger] rest[i].id,
                ) <= numeric_key(#[trigger] rest[j].id) by {
                    assert(rest[i] == questions[i] && rest[j] == questions[j]);
                }
            }
            assert forall|i: int, j: int| 0 <= i < j < rows.len() implies numeric_key(
                (#[trigger] rows[i]).question_id,
            ) <= numeric_key((#[trigger] rows[j]).question_id) by {
                if j < before.len() {
                    assert(rows[i] == before[i] && rows[j] == before[j]);
                } else {
                    assert(rows[i] == before[i]);
                    let k = choose|k: int|
                        0 <= k < rest.len() && (#[trigger] rest[k]).id == before[i].question_id;
                    assert(questions[k] == rest[k]);
                    assert(rows[j].question_id == last.id);
                    assert(numeric_key(questions[k].id) <= numeric_key(
                        questions[questions.len() - 1].id,
                    ));
                }
            }
        }
    }
}

/// Joins the answers of `subject` to `questions`. Where an answer points
/// outside its question's options, the failure is `Integrity` and no row is
/// given.
pub fn score(questions: &Vec<Question>, answers: &AnswerStore, subject: &str) -> (r: Result<
    Vec<TestResultRecord>,
    Failure,
>)
    ensures
        match r {
            Ok(rows) => {
                &&& in_range(questions_view(questions@), answers.edges(), subject@)
                &&& rows_view(rows@) == scored(
                    questions_view(questions@),
                    answers.edges(),
                    subject@,
                )
            },
            Err(e) => {
                &&& e == Failure::Integrity
                &&& !in_range(questions_view(questions@), answers.edges(), subject@)
            },
        },
{
    let ghost qs = questions_view(questions@);
    let mut rows: Vec<TestResultRecord> = Vec::new();
    let mut i: usize = 0;
    proof {
        assert(qs.take(0) =~= Seq::<QuestionView>::empty());
        assert(rows_view(rows@) =~= Seq::<RowView>::empty());
    }
    while i < questions.len()
        invariant
            i <= questions.len(),
            qs == questions_view(questions@),
            in_range(qs.take(i as int), answers.edges(), subject@),
            rows_view(rows@) == scored(qs.take(i as int), answers.edges(), subject@),
        decreases questions.len() - i,
    {
        let q: &Question = &questions[i];
        proof {
            assert(qs.take(i + 1).drop_last() =~= qs.take(i as int));
            assert(qs.take(i + 1).last() == q@);
            assert(qs[i as int] == q@);
        }
        match answers.choice(subject, q.id.as_str()) {
            Some(c) => {
                if c >= q.options.len() {
                    return Err(Failure::Integrity);
                }
                let row = TestResultRecord {
                    answer_txt: q.options[c].label.clone(),
                    answer_value: q.options[c].value,
                    question_txt: q.prompt.clone(),
                    question_id: q.id.clone(),
                };
                let ghost before = rows_view(rows@);
                rows.push(row);
                proof {
                    assert(q@.options[c as int] == q.options@[c as int]@);
                    assert(row@ == row_of(q@, c as nat));
                    assert(rows_view(rows@) =~= before.push(row@));
                }
            },
            None => {},
        }
        proof {
            assert forall|a: int| 0 <= a < i + 1 implies match choice_of(
                answers.edges(),
                subject@,
                (#[trigger] qs.take(i + 1)[a]).id,
            ) {
                Some(c) => c < qs.take(i + 1)[a].options.len(),
                None => true,
            } by {
                if a < i {
                    assert(qs.take(i + 1)[a] == qs.take(i as int)[a]);
                }
            }
        }
        i += 1;
    }
    proof {
        assert(qs.take(i as int) =~= qs);
    }
    Ok(rows)
}

/// The total score of a list of rows.
pub fn total_score(rows: &Vec<TestResultRecord>) -> (sum: u128)
    ensures
        sum as nat == total(rows_view(rows@)),
{
    let ghost all = rows_view(rows@);
    let mut sum: u128 = 0;
    let mut i: usize = 0;
    proof {
        assert(all.take(0) =~= Seq::<RowView>::empty());
    }
    while i < rows.len()
        invariant
            i <= rows.len(),
            all == rows_view(rows@),
            sum as nat == total(all.take(i as int)),
            sum <= i * usize::MAX,
        decreases rows.len() - i,
    {
        let v: usize = rows[i].answer_value;
        proof {
            assert(all.take(i + 1).drop_last() =~= all.take(i as int));
            assert(all.take(i + 1).last() == rows@[i as int]@);
            assert((i + 1) * usize::MAX == i * usize::MAX + usize::MAX) by (nonlinear_arith);
            assert((i + 1) * usize::MAX <= 0xFFFF_FFFF_FFFF_FFFF * 0xFFFF_FFFF_FFFF_FFFF)
                by (nonlinear_arith)
                requires
                    i + 1 <= 0xFFFF_FFFF_FFFF_FFFF,
                    usize::MAX <= 0xFFFF_FFFF_FFFF_FFFF,
            ;
        }
        sum = sum + v as u128;
        i += 1;
    }
    proof {
        assert(all.take(i as int) =~= all);
    }
    sum
}

} // verus!
