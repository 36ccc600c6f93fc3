use dellplatz_diag::error::Failure;
use dellplatz_diag::report::{
    artifact_name, conclude, format_html, format_row, upload, Rendering, STYLE,
};
use dellplatz_diag::text::{decimal_string, same_text};
use dellplatz_diag::types::TestResultRecord;

fn row(question: &str, answer: &str, value: usize) -> TestResultRecord {
    TestResultRecord {
        answer_txt: answer.to_string(),
        answer_value: value,
        question_txt: question.to_string(),
        question_id: "1".to_string(),
    }
}

fn page(user: &str, rows: &str, sum: &str) -> String {
    format!(
        "\n<!doctype html>\n<html>\n  <head>\n    <style>\n    {STYLE}\n    </style>\n  </head>\n  <body>\n    <h2>Test Report AQ</h2>\n    <div class=\"patienten-id\">\n    <b>Patienten ID:</b>\n    <pre>{user}</pre>\n    </div>\n\n    <table>\n      <tr>\n        <th>Frage</th>\n        <th>Antwort</th>\n        <th>Score</th>\n      </tr>\n      {rows}\n      <tfoot>\n      <tr>\n      <td colspan=2>SUMME</td>\n      <td>{sum}</td>\n      </tr>\n      </tfoot>\n    </table>\n  </body>\n</html>\n"
    )
}

#[test]
fn decimal_of_small_and_large_numbers() {
    assert_eq!(decimal_string(0), "0");
    assert_eq!(decimal_string(7), "7");
    assert_eq!(decimal_string(10), "10");
    assert_eq!(decimal_string(1234567890), "1234567890");
    assert_eq!(decimal_string(u128::MAX), "340282366920938463463374607431768211455");
}

#[test]
fn same_text_compares_characters() {
    assert!(same_text("", ""));
    assert!(same_text("Q1", "Q1"));
    assert!(!same_text("Q1", "q1"));
    assert!(!same_text("Q1", "Q10"));
}

#[test]
fn row_is_laid_out_as_three_cells() {
    let html = format_row(&row("How often?", "Often", 1));
    assert_eq!(html, "\n<tr>\n<td>How often?</td>\n<td>Often</td>\n<td>1</td>\n</tr>\n    ");
}

#[test]
fn row_writes_the_value_in_decimal() {
    let html = format_row(&row("", "", 1200));
    assert_eq!(html, "\n<tr>\n<td></td>\n<td></td>\n<td>1200</td>\n</tr>\n    ");
}

#[test]
fn page_without_rows_has_total_zero() {
    let html = format_html("S".to_string(), &Vec::new());
    assert_eq!(html, page("S", "", "0"));
}

#[test]
fn page_holds_subject_rows_and_total() {
    let rows = vec![row("How often?", "Often", 1), row("At all?", "Yes", 12)];
    let html = format_html("subject-17".to_string(), &rows);
    let body = "\n<tr>\n<td>How often?</td>\n<td>Often</td>\n<td>1</td>\n</tr>\n    \n<tr>\n<td>At all?</td>\n<td>Yes</td>\n<td>12</td>\n</tr>\n    ";
    assert_eq!(html, page("subject-17", body, "13"));
    assert_eq!(html.matches("<tr>").count(), 4);
}

#[test]
fn upload_is_one_html_file() {
    let rows = vec![row("q", "a", 3)];
    let u = upload("S".to_string(), &rows);
    assert_eq!(u.field, "files");
    assert_eq!(u.file_name, "index.html");
    assert_eq!(u.mime, "text/html");
    assert_eq!(u.document, format_html("S".to_string(), &rows));
}

#[test]
fn artifact_is_named_after_the_subject() {
    assert_eq!(artifact_name("S"), "report-S.pdf");
    assert_eq!(artifact_name(""), "report-.pdf");
    assert_ne!(artifact_name("a"), artifact_name("b"));
}

#[test]
fn rendered_document_becomes_the_artifact() {
    let a = conclude("S", Rendering::Done(vec![37, 80, 68, 70])).unwrap();
    assert_eq!(a.name, "report-S.pdf");
    assert_eq!(a.bytes, vec![37, 80, 68, 70]);
}

#[test]
fn refusal_is_an_upstream_failure_without_artifact() {
    let r = conclude("S", Rendering::Refused("chromium crashed".to_string()));
    let e = r.unwrap_err();
    assert_eq!(e, Failure::Upstream("chromium crashed".to_string()));
    assert_eq!(e.message(), "Failed to generate PDF: chromium crashed");
}

#[test]
fn every_failure_has_its_message() {
    assert_eq!(Failure::NotFound.message(), "not found");
    assert_eq!(Failure::Integrity.message(), "integrity violated");
    assert_eq!(Failure::Validation.message(), "invalid submission");
    assert_eq!(Failure::Upstream(String::new()).message(), "Failed to generate PDF: ");
}

#[test]
fn rendered_report_ends_the_evaluation_with_rows_and_one_file() {
    let rows = vec![row("q", "a", 3), row("r", "b", 4)];
    let s = dellplatz_diag::report::settle("S", rows, Rendering::Done(vec![1, 2, 3]));
    let out = s.result.unwrap();
    assert_eq!(out.len(), 2);
    assert_eq!((out[0].question_txt.as_str(), out[0].answer_value), ("q", 3));
    assert_eq!((out[1].question_txt.as_str(), out[1].answer_value), ("r", 4));
    let a = s.write.unwrap();
    assert_eq!(a.name, "report-S.pdf");
    assert_eq!(a.bytes, vec![1, 2, 3]);
}

#[test]
fn refused_report_ends_the_evaluation_with_failure_and_no_file() {
    let rows = vec![row("q", "a", 3)];
    let body = "status 503: renderer busy".to_string();
    let s = dellplatz_diag::report::settle("S", rows, Rendering::Refused(body.clone()));
    assert!(s.write.is_none());
    let e = s.result.unwrap_err();
    assert_eq!(e, Failure::Upstream(body.clone()));
    assert!(e.message().ends_with(&body));
    assert!(e.message().contains("status 503"));
}

#[test]
fn refusal_with_empty_body_is_still_an_upstream_failure() {
    let s = dellplatz_diag::report::settle("S", Vec::new(), Rendering::Refused(String::new()));
    assert!(s.write.is_none());
    assert_eq!(s.result.unwrap_err(), Failure::Upstream(String::new()));
}
