use dellplatz_diag::db::Db;
use dellplatz_diag::error::Failure;
use dellplatz_diag::scoring::total_score;
use dellplatz_diag::types::{Data, Opt, Question, Test, TestResultRecord, User};

fn opt(value: usize, label: &str) -> Opt {
    Opt { value, label: label.to_string() }
}

fn question(id: &str, prompt: &str, options: Vec<Opt>) -> Question {
    Question { id: id.to_string(), prompt: prompt.to_string(), options }
}

fn aq() -> Test {
    Test { id: "aq".to_string(), name: "AQ".to_string() }
}

fn two_questions() -> Vec<Question> {
    vec![
        question("Q1", "How often?", vec![opt(0, "Never"), opt(1, "Often")]),
        question("Q2", "At all?", vec![opt(0, "No"), opt(1, "Yes")]),
    ]
}

fn seeded() -> (Db, User) {
    let mut db = Db::connect(aq(), two_questions()).unwrap();
    let user = db
        .register_user("S".to_string(), uuid::Uuid::from_u128(7), vec!["aq".to_string()])
        .unwrap();
    (db, user)
}

fn submit(db: &mut Db, user: &User, answers: &[(&str, usize)]) -> Result<(), Failure> {
    let q = answers.iter().map(|(id, c)| (id.to_string(), *c)).collect();
    db.submit_test(Data { user: user.clone(), q })
}

fn triples(rows: &[TestResultRecord]) -> Vec<(String, String, usize)> {
    rows.iter().map(|r| (r.question_id.clone(), r.answer_txt.clone(), r.answer_value)).collect()
}

#[test]
fn submitted_answers_are_scored_in_question_order() {
    let (mut db, user) = seeded();
    submit(&mut db, &user, &[("Q1", 1), ("Q2", 0)]).unwrap();
    let rows = db.evaluate_test("S", "aq").unwrap();
    assert_eq!(
        triples(&rows),
        vec![
            ("Q1".to_string(), "Often".to_string(), 1),
            ("Q2".to_string(), "No".to_string(), 0),
        ]
    );
    assert_eq!(rows[0].question_txt, "How often?");
    assert_eq!(rows[1].question_txt, "At all?");
    assert_eq!(total_score(&rows), 1);
}

#[test]
fn resubmitting_replaces_the_answer() {
    let (mut db, user) = seeded();
    submit(&mut db, &user, &[("Q1", 1), ("Q2", 0)]).unwrap();
    submit(&mut db, &user, &[("Q1", 0)]).unwrap();
    let rows = db.evaluate_test("S", "aq").unwrap();
    assert_eq!(
        triples(&rows),
        vec![
            ("Q1".to_string(), "Never".to_string(), 0),
            ("Q2".to_string(), "No".to_string(), 0),
        ]
    );
    assert_eq!(total_score(&rows), 0);
}

#[test]
fn no_answers_give_no_rows_and_total_zero() {
    let (db, _user) = seeded();
    let rows = db.evaluate_test("S", "aq").unwrap();
    assert!(rows.is_empty());
    assert_eq!(total_score(&rows), 0);
}

#[test]
fn answer_outside_the_assigned_test_is_excluded() {
    let (mut db, user) = seeded();
    let other = Test { id: "phq".to_string(), name: "PHQ".to_string() };
    db.add_test(other, vec![question("M1", "Mood?", vec![opt(0, "Fine"), opt(3, "Low")])])
        .unwrap();
    submit(&mut db, &user, &[("Q2", 1), ("M1", 1)]).unwrap();
    let rows = db.evaluate_test("S", "aq").unwrap();
    assert_eq!(triples(&rows), vec![("Q2".to_string(), "Yes".to_string(), 1)]);
    assert_eq!(total_score(&rows), 1);
    let rows = db.evaluate_test("S", "phq").unwrap();
    assert_eq!(triples(&rows), vec![("M1".to_string(), "Low".to_string(), 3)]);
}

#[test]
fn evaluating_twice_gives_the_same_rows() {
    let (mut db, user) = seeded();
    submit(&mut db, &user, &[("Q2", 1), ("Q1", 1)]).unwrap();
    let first = db.evaluate_test("S", "aq").unwrap();
    let second = db.evaluate_test("S", "aq").unwrap();
    assert_eq!(triples(&first), triples(&second));
    assert_eq!(total_score(&first), 2);
    assert_eq!(total_score(&second), 2);
}

#[test]
fn choice_outside_the_options_is_an_integrity_failure() {
    let (mut db, user) = seeded();
    submit(&mut db, &user, &[("Q1", 2)]).unwrap();
    assert_eq!(db.evaluate_test("S", "aq").unwrap_err(), Failure::Integrity);
}

#[test]
fn unknown_subject_or_test_is_not_found() {
    let (db, _user) = seeded();
    assert_eq!(db.evaluate_test("nobody", "aq").unwrap_err(), Failure::NotFound);
    assert_eq!(db.evaluate_test("S", "none").unwrap_err(), Failure::NotFound);
    assert_eq!(db.get_assigned_tests("nobody").unwrap_err(), Failure::NotFound);
    assert_eq!(db.get_questions("none").unwrap_err(), Failure::NotFound);
}

#[test]
fn submission_is_all_or_nothing() {
    let (mut db, user) = seeded();
    submit(&mut db, &user, &[("Q1", 1)]).unwrap();
    let r = submit(&mut db, &user, &[("Q1", 0), ("Q9", 0)]);
    assert_eq!(r.unwrap_err(), Failure::NotFound);
    let rows = db.evaluate_test("S", "aq").unwrap();
    assert_eq!(triples(&rows), vec![("Q1".to_string(), "Often".to_string(), 1)]);
    let stranger = User { id: "T".to_string(), retrieval_id: uuid::Uuid::from_u128(9) };
    assert_eq!(submit(&mut db, &stranger, &[("Q1", 0)]).unwrap_err(), Failure::NotFound);
}

#[test]
fn later_answer_in_one_submission_wins() {
    let (mut db, user) = seeded();
    submit(&mut db, &user, &[("Q1", 0), ("Q1", 1)]).unwrap();
    let rows = db.evaluate_test("S", "aq").unwrap();
    assert_eq!(triples(&rows), vec![("Q1".to_string(), "Often".to_string(), 1)]);
}

#[test]
fn same_submission_twice_gives_one_row_per_question() {
    let (mut db, user) = seeded();
    submit(&mut db, &user, &[("Q1", 1), ("Q2", 1)]).unwrap();
    submit(&mut db, &user, &[("Q1", 1), ("Q2", 1)]).unwrap();
    let rows = db.evaluate_test("S", "aq").unwrap();
    assert_eq!(
        triples(&rows),
        vec![
            ("Q1".to_string(), "Often".to_string(), 1),
            ("Q2".to_string(), "Yes".to_string(), 1),
        ]
    );
    assert_eq!(total_score(&rows), 2);
}
