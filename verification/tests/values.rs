use dellplatz_diag::types::{Opt, Question, Test, User};
use uuid::Uuid;

#[test]
fn duplicate_of_a_question_has_every_field() {
    let q = Question {
        id: "7".to_string(),
        prompt: "Why?".to_string(),
        options: vec![
            Opt { value: 0, label: "no".to_string() },
            Opt { value: 5, label: "yes".to_string() },
        ],
    };
    let d = q.duplicate();
    assert_eq!(d.id, "7");
    assert_eq!(d.prompt, "Why?");
    assert_eq!(d.options.len(), 2);
    assert_eq!((d.options[0].value, d.options[0].label.as_str()), (0, "no"));
    assert_eq!((d.options[1].value, d.options[1].label.as_str()), (5, "yes"));
    let o = q.options[1].duplicate();
    assert_eq!((o.value, o.label.as_str()), (5, "yes"));
}

#[test]
fn duplicate_of_a_test_and_of_a_subject() {
    let t = Test { id: "aq".to_string(), name: "AQ".to_string() }.duplicate();
    assert_eq!((t.id.as_str(), t.name.as_str()), ("aq", "AQ"));
    let u = User { id: "S".to_string(), retrieval_id: Uuid::from_u128(0xfeed) };
    let d = u.duplicate();
    assert_eq!(d.id, "S");
    assert_eq!(d.retrieval_id, Uuid::from_u128(0xfeed));
    assert_eq!(u.clone().retrieval_id, Uuid::from_u128(0xfeed));
}
