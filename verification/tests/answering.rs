use dellplatz_diag::answers::AnswerStore;
use dellplatz_diag::db::Db;
use dellplatz_diag::error::Failure;
use dellplatz_diag::registry::Registry;
use dellplatz_diag::scoring::{score, total_score};
use dellplatz_diag::types::{Data, Opt, Question, Test, TestResultRecord};
use uuid::Uuid;

fn question(id: &str, labels: &[(&str, usize)]) -> Question {
    Question {
        id: id.to_string(),
        prompt: format!("prompt {id}"),
        options: labels.iter().map(|(l, v)| Opt { value: *v, label: l.to_string() }).collect(),
    }
}

fn row(value: usize) -> TestResultRecord {
    TestResultRecord {
        answer_txt: "a".to_string(),
        answer_value: value,
        question_txt: "q".to_string(),
        question_id: "1".to_string(),
    }
}

fn strings(items: &[&str]) -> Vec<String> {
    items.iter().map(|s| s.to_string()).collect()
}

#[test]
fn same_answer_twice_leaves_one_edge() {
    let mut store = AnswerStore::new();
    assert_eq!(store.count("S", "Q1"), 0);
    assert_eq!(store.choice("S", "Q1"), None);
    store.replace("S", "Q1", 1);
    store.replace("S", "Q1", 1);
    assert_eq!(store.count("S", "Q1"), 1);
    assert_eq!(store.choice("S", "Q1"), Some(1));
}

#[test]
fn latest_of_many_answers_stays() {
    let mut store = AnswerStore::new();
    for choice in [3, 0, 2, 2, 5, 1] {
        store.replace("S", "Q1", choice);
        assert_eq!(store.choice("S", "Q1"), Some(choice));
        assert_eq!(store.count("S", "Q1"), 1);
    }
    assert_eq!(store.choice("S", "Q1"), Some(1));
}

#[test]
fn answers_of_other_pairs_stay() {
    let mut store = AnswerStore::new();
    store.replace("S", "Q1", 1);
    store.replace("S", "Q2", 2);
    store.replace("T", "Q1", 3);
    store.replace("S", "Q1", 0);
    assert_eq!(store.choice("S", "Q1"), Some(0));
    assert_eq!(store.choice("S", "Q2"), Some(2));
    assert_eq!(store.choice("T", "Q1"), Some(3));
    assert_eq!(store.choice("T", "Q2"), None);
    assert_eq!(store.count("S", "Q2"), 1);
    assert_eq!(store.count("T", "Q1"), 1);
    store.clear();
    assert_eq!(store.choice("S", "Q1"), None);
    assert_eq!(store.count("T", "Q1"), 0);
}

#[test]
fn submission_applies_answers_in_order() {
    let mut store = AnswerStore::new();
    store.replace("S", "Q3", 4);
    let answers = vec![("Q1".to_string(), 0), ("Q2".to_string(), 1), ("Q1".to_string(), 2)];
    store.submit("S", &answers);
    store.submit("S", &answers);
    assert_eq!(store.choice("S", "Q1"), Some(2));
    assert_eq!(store.choice("S", "Q2"), Some(1));
    assert_eq!(store.choice("S", "Q3"), Some(4));
    assert_eq!(store.count("S", "Q1"), 1);
    assert_eq!(store.count("S", "Q2"), 1);
    store.submit("S", &Vec::new());
    assert_eq!(store.choice("S", "Q1"), Some(2));
}

#[test]
fn score_takes_label_and_value_at_the_chosen_index() {
    let questions =
        vec![question("1", &[("low", 10), ("high", 20)]), question("2", &[("none", 7)])];
    let mut store = AnswerStore::new();
    store.replace("S", "2", 0);
    store.replace("S", "1", 1);
    store.replace("T", "1", 0);
    let rows = score(&questions, &store, "S").unwrap();
    assert_eq!(rows.len(), 2);
    assert_eq!(rows[0].question_id, "1");
    assert_eq!(rows[0].question_txt, "prompt 1");
    assert_eq!(rows[0].answer_txt, "high");
    assert_eq!(rows[0].answer_value, 20);
    assert_eq!(rows[1].question_id, "2");
    assert_eq!(rows[1].answer_txt, "none");
    assert_eq!(rows[1].answer_value, 7);
    assert_eq!(total_score(&rows), 27);
    let rows = score(&questions, &store, "T").unwrap();
    assert_eq!(rows.len(), 1);
    assert_eq!(rows[0].answer_txt, "low");
    assert_eq!(total_score(&rows), 10);
}

#[test]
fn score_refuses_an_index_past_the_options() {
    let questions = vec![question("1", &[("low", 10), ("high", 20)]), question("2", &[])];
    let mut store = AnswerStore::new();
    store.replace("S", "1", 2);
    assert_eq!(score(&questions, &store, "S").unwrap_err(), Failure::Integrity);
    store.replace("S", "1", 1);
    assert!(score(&questions, &store, "S").is_ok());
    store.replace("S", "2", 0);
    assert_eq!(score(&questions, &store, "S").unwrap_err(), Failure::Integrity);
}

#[test]
fn total_is_the_sum_of_the_values() {
    assert_eq!(total_score(&Vec::new()), 0);
    assert_eq!(total_score(&vec![row(5)]), 5);
    assert_eq!(total_score(&vec![row(1), row(2), row(3), row(0), row(4)]), 10);
}

#[test]
fn total_does_not_overflow() {
    let rows = vec![row(usize::MAX), row(usize::MAX), row(1)];
    assert_eq!(total_score(&rows), 2 * (usize::MAX as u128) + 1);
}

#[test]
fn registry_keeps_subjects_apart() {
    let mut registry = Registry::new();
    let a = registry.register("A".to_string(), Uuid::from_u128(1), strings(&["aq", "phq"])).unwrap();
    let b = registry.register("B".to_string(), Uuid::from_u128(2), strings(&[])).unwrap();
    assert_eq!(a.id, "A");
    assert_eq!(a.retrieval_id, Uuid::from_u128(1));
    assert_eq!(b.id, "B");
    assert_eq!(b.retrieval_id, Uuid::from_u128(2));
    assert!(registry.has_subject("A"));
    assert!(!registry.has_subject("C"));
    assert!(registry.is_assigned("A", "aq"));
    assert!(registry.is_assigned("A", "phq"));
    assert!(!registry.is_assigned("B", "aq"));
    assert!(!registry.is_assigned("C", "aq"));
    let again = registry.register("A".to_string(), Uuid::from_u128(3), strings(&["x"]));
    assert_eq!(again.unwrap_err(), Failure::Integrity);
    assert!(!registry.is_assigned("A", "x"));
    registry.clear_assignments();
    assert!(registry.has_subject("A"));
    assert!(registry.has_subject("B"));
    assert!(!registry.is_assigned("A", "aq"));
}

fn store_with_two_tests() -> Db {
    let aq = Test { id: "aq".to_string(), name: "AQ".to_string() };
    let phq = Test { id: "phq".to_string(), name: "PHQ".to_string() };
    let mut db = Db::connect(aq, vec![question("2", &[("a", 0)]), question("1", &[("b", 1)])])
        .unwrap();
    db.add_test(phq, vec![question("M1", &[("c", 2)])]).unwrap();
    db
}

#[test]
fn empty_store_has_nothing() {
    let db = Db::get();
    assert!(db.get_available_tests().is_empty());
    assert_eq!(db.get_questions("aq").unwrap_err(), Failure::NotFound);
    assert_eq!(db.get_assigned_tests("S").unwrap_err(), Failure::NotFound);
}

#[test]
fn created_subject_gets_fresh_identifiers_and_its_tests() {
    let mut db = store_with_two_tests();
    let first = db.create_user(strings(&["phq", "aq"])).unwrap();
    let second = db.create_user(strings(&["phq"])).unwrap();
    assert!(!first.id.is_empty());
    assert_ne!(first.id, second.id);
    assert_ne!(first.retrieval_id, second.retrieval_id);
    assert_ne!(first.id, first.retrieval_id.to_string());
    let copy = first.clone();
    assert_eq!(copy.id, first.id);
    assert_eq!(copy.retrieval_id, first.retrieval_id);
    let assigned: Vec<String> =
        db.get_assigned_tests(&first.id).unwrap().iter().map(|t| t.id.clone()).collect();
    assert_eq!(assigned, vec!["aq", "phq"]);
    let assigned = db.get_assigned_tests(&second.id).unwrap();
    assert_eq!(assigned.len(), 1);
    assert_eq!(assigned[0].id, "phq");
    assert_eq!(assigned[0].name, "PHQ");
    let nothing = db.create_user(Vec::new()).unwrap();
    assert!(db.get_assigned_tests(&nothing.id).unwrap().is_empty());
}

#[test]
fn assigning_a_test_that_does_not_exist_is_refused() {
    let mut db = store_with_two_tests();
    assert_eq!(db.create_user(strings(&["aq", "nope"])).unwrap_err(), Failure::Validation);
    let r = db.register_user("S".to_string(), Uuid::from_u128(1), strings(&["nope"]));
    assert_eq!(r.unwrap_err(), Failure::Validation);
    assert_eq!(db.get_assigned_tests("S").unwrap_err(), Failure::NotFound);
}

#[test]
fn identifier_of_a_subject_is_taken_once() {
    let mut db = store_with_two_tests();
    db.register_user("S".to_string(), Uuid::from_u128(1), strings(&["aq"])).unwrap();
    let r = db.register_user("S".to_string(), Uuid::from_u128(2), strings(&["phq"]));
    assert_eq!(r.unwrap_err(), Failure::Integrity);
    let r = db.register_user("S".to_string(), Uuid::from_u128(2), strings(&["nope"]));
    assert_eq!(r.unwrap_err(), Failure::Validation);
    let assigned = db.get_assigned_tests("S").unwrap();
    assert_eq!(assigned.len(), 1);
    assert_eq!(assigned[0].id, "aq");
}

#[test]
fn available_tests_and_questions_are_listed() {
    let db = store_with_two_tests();
    let tests = db.get_available_tests();
    assert_eq!(tests.len(), 2);
    assert_eq!((tests[0].id.as_str(), tests[0].name.as_str()), ("aq", "AQ"));
    assert_eq!((tests[1].id.as_str(), tests[1].name.as_str()), ("phq", "PHQ"));
    let questions = db.get_questions("aq").unwrap();
    let ids: Vec<&str> = questions.iter().map(|q| q.id.as_str()).collect();
    assert_eq!(ids, vec!["1", "2"]);
    assert_eq!(questions[0].options[0].label, "b");
    assert_eq!(questions[0].options[0].value, 1);
}

#[test]
fn seeding_again_clears_answers_and_assignments() {
    let mut db = store_with_two_tests();
    let user = db.register_user("S".to_string(), Uuid::from_u128(1), strings(&["aq"])).unwrap();
    db.submit_test(Data { user: user.clone(), q: vec![("1".to_string(), 0)] }).unwrap();
    assert_eq!(db.evaluate_test("S", "aq").unwrap().len(), 1);
    let aq = Test { id: "aq".to_string(), name: "AQ".to_string() };
    db.setup(aq, vec![question("2", &[("a", 0)]), question("1", &[("b", 1)])]).unwrap();
    assert!(db.evaluate_test("S", "aq").unwrap().is_empty());
    assert!(db.get_assigned_tests("S").unwrap().is_empty());
    assert_eq!(db.get_available_tests().len(), 1);
    assert_eq!(db.get_questions("phq").unwrap_err(), Failure::NotFound);
    db.submit_test(Data { user, q: vec![("2".to_string(), 0)] }).unwrap();
    assert_eq!(db.evaluate_test("S", "aq").unwrap()[0].answer_txt, "a");
}

#[test]
fn seeding_with_a_repeated_question_fails_whole() {
    let mut db = store_with_two_tests();
    let aq = Test { id: "aq".to_string(), name: "AQ".to_string() };
    let r = db.setup(aq.clone(), vec![question("1", &[]), question("1", &[])]);
    assert_eq!(r.unwrap_err(), Failure::Integrity);
    assert_eq!(db.get_available_tests().len(), 2);
    assert_eq!(db.get_questions("aq").unwrap().len(), 2);
    let r = Db::connect(aq, vec![question("1", &[]), question("1", &[])]);
    assert_eq!(r.err(), Some(Failure::Integrity));
}

#[test]
fn rows_come_in_canonical_order_whatever_the_order_of_answers() {
    let aq = Test { id: "aq".to_string(), name: "AQ".to_string() };
    let mut db = Db::connect(
        aq,
        vec![
            question("10", &[("x", 1)]),
            question("9", &[("y", 2)]),
            question("1", &[("z", 4)]),
        ],
    )
    .unwrap();
    let user = db.register_user("S".to_string(), Uuid::from_u128(1), strings(&["aq"])).unwrap();
    let q = vec![("10".to_string(), 0), ("1".to_string(), 0), ("9".to_string(), 0)];
    db.submit_test(Data { user, q }).unwrap();
    let rows = db.evaluate_test("S", "aq").unwrap();
    let ids: Vec<&str> = rows.iter().map(|r| r.question_id.as_str()).collect();
    assert_eq!(ids, vec!["1", "9", "10"]);
    assert_eq!(total_score(&rows), 7);
}

#[test]
fn first_subject_of_an_empty_store_is_created() {
    let mut db = Db::get();
    let user = db.create_user(Vec::new()).unwrap();
    assert!(!user.id.is_empty());
    assert!(db.get_assigned_tests(&user.id).unwrap().is_empty());
    assert_eq!(db.create_user(strings(&["aq"])).unwrap_err(), Failure::Validation);
}
