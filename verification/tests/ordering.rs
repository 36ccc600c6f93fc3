use dellplatz_diag::catalog::Catalog;
use dellplatz_diag::error::Failure;
use dellplatz_diag::order::{key_of, sort_questions};
use dellplatz_diag::types::{Opt, Question, Test};

fn question(id: &str) -> Question {
    Question {
        id: id.to_string(),
        prompt: format!("prompt {id}"),
        options: vec![Opt { value: 0, label: "no".to_string() }],
    }
}

fn ids(questions: &[Question]) -> Vec<String> {
    questions.iter().map(|q| q.id.clone()).collect()
}

fn test(id: &str) -> Test {
    Test { id: id.to_string(), name: id.to_uppercase() }
}

#[test]
fn key_is_the_number_spelled_by_the_digits() {
    assert_eq!(key_of("7"), 7);
    assert_eq!(key_of("10"), 10);
    assert_eq!(key_of("Q10"), 10);
    assert_eq!(key_of("a1b2"), 12);
    assert_eq!(key_of("007"), 7);
    assert_eq!(key_of("４2"), 2);
}

#[test]
fn key_without_digits_is_zero() {
    assert_eq!(key_of(""), 0);
    assert_eq!(key_of("abc"), 0);
    assert_eq!(key_of("0"), 0);
}

#[test]
fn key_stops_at_the_largest_number() {
    assert_eq!(key_of("18446744073709551614"), 18446744073709551614);
    assert_eq!(key_of("18446744073709551615"), u64::MAX);
    assert_eq!(key_of("18446744073709551616"), u64::MAX);
    assert_eq!(key_of("99999999999999999999999999"), u64::MAX);
    assert_eq!(key_of("184467440737095516150"), u64::MAX);
}

#[test]
fn questions_are_sorted_by_number_not_by_text() {
    let sorted = sort_questions(vec![question("10"), question("9"), question("2")]);
    assert_eq!(ids(&sorted), vec!["2", "9", "10"]);
}

#[test]
fn equal_keys_keep_the_order_given() {
    let sorted = sort_questions(vec![
        question("b3"),
        question("x"),
        question("a3"),
        question("1"),
        question("y"),
        question("3"),
    ]);
    assert_eq!(ids(&sorted), vec!["x", "y", "1", "b3", "a3", "3"]);
}

#[test]
fn sorting_keeps_every_question_whole() {
    let sorted = sort_questions(vec![question("2"), question("1")]);
    assert_eq!(sorted.len(), 2);
    assert_eq!(sorted[0].prompt, "prompt 1");
    assert_eq!(sorted[0].options.len(), 1);
    assert_eq!(sorted[0].options[0].label, "no");
    assert_eq!(sorted[1].prompt, "prompt 2");
}

#[test]
fn sorting_nothing_gives_nothing() {
    assert!(sort_questions(Vec::new()).is_empty());
}

#[test]
fn sorting_twice_changes_nothing() {
    let once = sort_questions(vec![question("5"), question("Q5"), question("4"), question("40")]);
    let twice = sort_questions(once.clone());
    assert_eq!(ids(&once), vec!["4", "5", "Q5", "40"]);
    assert_eq!(ids(&twice), ids(&once));
}

#[test]
fn catalog_lists_each_test_in_canonical_order() {
    let mut catalog = Catalog::new();
    catalog.add_test(test("aq"), vec![question("3"), question("1"), question("2")]).unwrap();
    catalog.add_test(test("phq"), vec![question("M2"), question("M1")]).unwrap();
    assert_eq!(ids(&catalog.list_questions("aq").unwrap()), vec!["1", "2", "3"]);
    assert_eq!(ids(&catalog.list_questions("phq").unwrap()), vec!["M1", "M2"]);
    let tests: Vec<String> = catalog.list_tests().iter().map(|t| t.id.clone()).collect();
    assert_eq!(tests, vec!["aq", "phq"]);
    assert!(catalog.has_test("aq"));
    assert!(!catalog.has_test("AQ"));
    assert!(catalog.has_question("M1"));
    assert!(!catalog.has_question("4"));
}

#[test]
fn catalog_refuses_what_exists_already() {
    let mut catalog = Catalog::new();
    catalog.add_test(test("aq"), vec![question("1"), question("2")]).unwrap();
    assert_eq!(catalog.add_test(test("aq"), vec![question("7")]).unwrap_err(), Failure::Integrity);
    assert_eq!(catalog.add_test(test("b"), vec![question("2")]).unwrap_err(), Failure::Integrity);
    assert_eq!(
        catalog.add_test(test("c"), vec![question("8"), question("8")]).unwrap_err(),
        Failure::Integrity
    );
    assert_eq!(catalog.list_tests().len(), 1);
    assert_eq!(ids(&catalog.list_questions("aq").unwrap()), vec!["1", "2"]);
    assert_eq!(catalog.list_questions("b").unwrap_err(), Failure::NotFound);
    assert!(!catalog.has_question("7"));
}

#[test]
fn seeding_twice_gives_the_same_catalog() {
    let mut catalog = Catalog::new();
    catalog.add_test(test("old"), vec![question("99")]).unwrap();
    let source = vec![question("2"), question("10"), question("1")];
    catalog.seed(test("aq"), source.clone()).unwrap();
    let first = catalog.list_questions("aq").unwrap();
    catalog.seed(test("aq"), source).unwrap();
    let second = catalog.list_questions("aq").unwrap();
    assert_eq!(ids(&first), vec!["1", "2", "10"]);
    assert_eq!(ids(&second), ids(&first));
    for (a, b) in first.iter().zip(second.iter()) {
        assert_eq!(a.prompt, b.prompt);
        assert_eq!(a.options.len(), b.options.len());
        assert_eq!(a.options[0].value, b.options[0].value);
        assert_eq!(a.options[0].label, b.options[0].label);
    }
    assert_eq!(catalog.list_tests().len(), 1);
    assert!(!catalog.has_test("old"));
    assert!(!catalog.has_question("99"));
    catalog.seed(test("aq"), first).unwrap();
    assert_eq!(ids(&catalog.list_questions("aq").unwrap()), vec!["1", "2", "10"]);
}

#[test]
fn failed_seeding_leaves_the_catalog() {
    let mut catalog = Catalog::new();
    catalog.seed(test("aq"), vec![question("1")]).unwrap();
    let r = catalog.seed(test("new"), vec![question("5"), question("5")]);
    assert_eq!(r.unwrap_err(), Failure::Integrity);
    assert!(catalog.has_test("aq"));
    assert!(!catalog.has_test("new"));
    assert_eq!(ids(&catalog.list_questions("aq").unwrap()), vec!["1"]);
}
