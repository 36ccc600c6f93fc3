//! The report: scored rows laid out as a document for the rendering service,
//! and what the service's answer means.

use vstd::prelude::*;
use crate::error::{Failure, failure_text};
use crate::scoring::{total, total_score};
use crate::text::{decimal, decimal_string};
use crate::types::{RowView, TestResultRecord, rows_view};

verus! {

/// The style sheet that every report carries.
pub const STYLE: &'static str =
    "body { font-family: sans-serif; margin: 2em; }
    h2 { margin-bottom: 0.5em; }
    .patienten-id pre { display: inline; }
    table { border-collapse: collapse; width: 100%; }
    th, td { border: 1px solid #888; padding: 0.3em 0.6em; text-align: left; }
    tfoot td { font-weight: bold; }";

/// The start of a table row, before the question.
pub const ROW_OPEN: &'static str = "\n<tr>\n<td>";

/// What parts one cell of a row from the next.
pub const CELL: &'static str = "</td>\n<td>";

/// The end of a table row, after the value.
pub const ROW_CLOSE: &'static str = "</td>\n</tr>\n    ";

/// The start of the document, before the style sheet.
pub const PAGE_OPEN: &'static str = "\n<!doctype html>\n<html>\n  <head>\n    <style>\n    ";

/// From the style sheet to the subject's identifier.
pub const PAGE_SUBJECT: &'static str =
    "\n    </style>\n  </head>\n  <body>\n    <h2>Test Report AQ</h2>\n    <div class=\"patienten-id\">\n    <b>Patienten ID:</b>\n    <pre>";

/// From the subject's identifier to the rows of the table.
pub const PAGE_TABLE: &'static str =
    "</pre>\n    </div>\n\n    <table>\n      <tr>\n        <th>Frage</th>\n        <th>Antwort</th>\n        <th>Score</th>\n      </tr>\n      ";

/// From the rows to the total.
pub const PAGE_TOTAL: &'static str =
    "\n      <tfoot>\n      <tr>\n      <td colspan=2>SUMME</td>\n      <td>";

/// The end of the document, after the total.
pub const PAGE_CLOSE: &'static str =
    "</td>\n      </tr>\n      </tfoot>\n    </table>\n  </body>\n</html>\n";

/// One table row: the question, the answer and its value in decimal.
pub open spec fn row_html(row: RowView) -> Seq<char> {
    ROW_OPEN@ + row.question_txt + CELL@ + row.answer_txt + CELL@ + decimal(row.answer_value)
        + ROW_CLOSE@
}

/// The table rows one after the other.
pub open spec fn rows_html(rows: Seq<RowView>) -> Seq<char>
    decreases rows.len(),
{
    if rows.len() == 0 {
        Seq::empty()
    } else {
        rows_html(rows.drop_last()) + row_html(rows.last())
    }
}

/// The whole document: style sheet, subject, one row for each scored row, and
/// a last row with the total.
pub open spec fn page_html(user_id: Seq<char>, rows: Seq<RowView>) -> Seq<char> {
    PAGE_OPEN@ + STYLE@ + PAGE_SUBJECT@ + user_id + PAGE_TABLE@ + rows_html(rows) + PAGE_TOTAL@
        + decimal(total(rows)) + PAGE_CLOSE@
}

/// Lays out one row of the table.
pub fn format_row(row: &TestResultRecord) -> (html: String)
    ensures
        html@ == row_html(row@),
{
    let mut html: String = String::from_str(ROW_OPEN);
    html.append(row.question_txt.as_str());
    html.append(CELL);
    html.append(row.answer_txt.as_str());
    html.append(CELL);
    let value: String = decimal_string(row.answer_value as u128);
    html.append(value.as_str());
    html.append(ROW_CLOSE);
    html
}

/// Lays out the report of a subject.
pub fn format_html(user_id: String, rows: &Vec<TestResultRecord>) -> (html: String)
    ensures
        html@ == page_html(user_id@, rows_view(rows@)),
{
    let ghost all = rows_view(rows@);
    let mut body: String = String::new();
    let mut i: usize = 0;
    proof {
        assert(all.take(0) =~= Seq::<RowView>::empty());
    }
    while i < rows.len()
        invariant
            i <= rows.len(),
            all == rows_view(rows@),
            body@ == rows_html(all.take(i as int)),
        decreases rows.len() - i,
    {
        proof {
            assert(all.take(i + 1).drop_last() =~= all.take(i as int));
            assert(all.take(i + 1).last() == rows@[i as int]@);
        }
        let row: String = format_row(&rows[i]);
        body.append(row.as_str());
        i += 1;
    }
    proof {
        assert(all.take(i as int) =~= all);
    }
    let sum: String = decimal_string(total_score(rows));
    let mut html: String = String::from_str(PAGE_OPEN);
    html.append(STYLE);
    html.append(PAGE_SUBJECT);
    html.append(user_id.as_str());
    html.append(PAGE_TABLE);
    html.append(body.as_str());
    html.append(PAGE_TOTAL);
    html.append(sum.as_str());
    html.append(PAGE_CLOSE);
    html
}

/// The form field under which the document is uploaded.
pub const UPLOAD_FIELD: &'static str = "files";

/// The file name under which the document is uploaded.
pub const UPLOAD_NAME: &'static str = "index.html";

/// The media type of the document.
pub const UPLOAD_MIME: &'static str = "text/html";

/// What comes before the subject's identifier in an artifact's name.
pub const ARTIFACT_PREFIX: &'static str = "report-";

/// What comes after the subject's identifier in an artifact's name.
pub const ARTIFACT_SUFFIX: &'static str = ".pdf";

/// What is sent to the rendering service: one file in a multipart form.
#[derive(Debug, Clone)]
pub struct Upload {
    pub field: String,
    pub file_name: String,
    pub mime: String,
    pub document: String,
}

/// What the rendering service answered.
#[derive(Debug, Clone)]
pub enum Rendering {
    /// A success status; the bytes are the rendered document.
    Done(Vec<u8>),
    /// Any other status; the text is the body of the answer.
    Refused(String),
}

/// A rendered report and the name under which it is kept.
#[derive(Debug, Clone)]
pub struct Artifact {
    pub name: String,
    pub bytes: Vec<u8>,
}

/// The name under which the report of a subject is kept.
pub open spec fn artifact_name_of(user_id: Seq<char>) -> Seq<char> {
    ARTIFACT_PREFIX@ + user_id + ARTIFACT_SUFFIX@
}

/// The name under which the report of a subject is kept, so that the reports
/// of two subjects never share a name.
pub fn artifact_name(user_id: &str) -> (name: String)
    ensures
        name@ == artifact_name_of(user_id@),
{
    let mut name: String = String::from_str(ARTIFACT_PREFIX);
    name.append(user_id);
    name.append(ARTIFACT_SUFFIX);
    name
}

/// The upload that asks the rendering service for the report of a subject.
pub fn upload(user_id: String, rows: &Vec<TestResultRecord>) -> (u: Upload)
    ensures
        u.field@ == UPLOAD_FIELD@,
        u.file_name@ == UPLOAD_NAME@,
        u.mime@ == UPLOAD_MIME@,
        u.document@ == page_html(user_id@, rows_view(rows@)),
{
    Upload {
        field: String::from_str(UPLOAD_FIELD),
        file_name: String::from_str(UPLOAD_NAME),
        mime: String::from_str(UPLOAD_MIME),
        document: format_html(user_id, rows),
    }
}

/// What the service's answer means for the report of a subject: a rendered
/// document becomes the artifact to keep; a refusal is an upstream failure
/// that carries the service's words, and there is no artifact.
pub fn conclude(user_id: &str, answer: Rendering) -> (r: Result<Artifact, Failure>)
    ensures
        match answer {
            Rendering::Done(bytes) => r matches Ok(a) && a.name@ == artifact_name_of(user_id@)
                && a.bytes@ == bytes@,
            Rendering::Refused(body) => r matches Err(Failure::Upstream(m)) && m@ == body@,
        },
{
    match answer {
        Rendering::Done(bytes) => Ok(Artifact { name: artifact_name(user_id), bytes }),
        Rendering::Refused(body) => Err(Failure::Upstream(body)),
    }
}

/// The view of an [`Artifact`].
pub struct ArtifactView {
    pub name: Seq<char>,
    pub bytes: Seq<u8>,
}

impl View for Artifact {
    type V = ArtifactView;

    open spec fn view(&self) -> ArtifactView {
        ArtifactView { name: self.name@, bytes: self.bytes@ }
    }
}

/// How an evaluation ends once the rendering service has answered: what the
/// one who asked for the evaluation gets, and the artifact that is to be
/// written, if any. Nothing else is to be written.
pub struct Settled {
    pub result: Result<Vec<TestResultRecord>, Failure>,
    pub write: Option<Artifact>,
}

/// The artifact that the service's answer gives for a subject: the rendered
/// document under the subject's name, or none where the service refused.
pub open spec fn artifact_of(user_id: Seq<char>, answer: Rendering) -> Option<ArtifactView> {
    match answer {
        Rendering::Done(bytes) => Some(
            ArtifactView { name: artifact_name_of(user_id), bytes: bytes@ },
        ),
        Rendering::Refused(_) => None,
    }
}

/// The kept artifacts, by name, once `write` has been carried out on `files`.
pub open spec fn files_after(files: Map<Seq<char>, Seq<u8>>, write: Option<ArtifactView>) -> Map<
    Seq<char>,
    Seq<u8>,
> {
    match write {
        Some(a) => files.insert(a.name, a.bytes),
        None => files,
    }
}

/// Ends the evaluation of a subject whose rows were sent to the rendering
/// service. Where the service rendered the report, the rows are the result
/// and the report is to be written under the subject's name. Where it
/// refused, the result is an upstream failure with the service's words, the
/// rows are not given, and nothing is to be written.
pub fn settle(user_id: &str, rows: Vec<TestResultRecord>, answer: Rendering) -> (s: Settled)
    ensures
        match s.write {
            Some(a) => artifact_of(user_id@, answer) == Some(a@),
            None => artifact_of(user_id@, answer) is None,
        },
        match answer {
            Rendering::Done(_) => s.result == Ok::<Vec<TestResultRecord>, Failure>(rows),
            Rendering::Refused(body) => s.result matches Err(Failure::Upstream(m)) && m@
                == body@,
        },
{
    match conclude(user_id, answer) {
        Ok(artifact) => Settled { result: Ok(rows), write: Some(artifact) },
        Err(failure) => Settled { result: Err(failure), write: None },
    }
}

/// A refusal of the rendering service leaves the kept artifacts as they are:
/// none is created and none is overwritten.
pub proof fn law_refusal_writes_nothing(
    files: Map<Seq<char>, Seq<u8>>,
    user_id: Seq<char>,
    body: String,
)
    ensures
        artifact_of(user_id, Rendering::Refused(body)) is None,
        files_after(files, artifact_of(user_id, Rendering::Refused(body))) == files,
{
}

/// A rendered report is kept under the subject's name, and every artifact
/// under another name stays as it is.
pub proof fn law_rendering_writes_one(
    files: Map<Seq<char>, Seq<u8>>,
    user_id: Seq<char>,
    bytes: Vec<u8>,
    other: Seq<char>,
)
    ensures
        files_after(files, artifact_of(user_id, Rendering::Done(bytes)))[artifact_name_of(user_id)]
            == bytes@,
        other != artifact_name_of(user_id) ==> {
            &&& files_after(files, artifact_of(user_id, Rendering::Done(bytes))).contains_key(other)
                == files.contains_key(other)
            &&& files_after(files, artifact_of(user_id, Rendering::Done(bytes)))[other]
                == files[other]
        },
{
}

/// The text of an upstream failure ends with the words of the service.
pub proof fn law_upstream_text_holds_body(body: String)
    ensures
        failure_text(Failure::Upstream(body)).len() >= body@.len(),
        failure_text(Failure::Upstream(body)).subrange(
            failure_text(Failure::Upstream(body)).len() - body@.len(),
            failure_text(Failure::Upstream(body)).len() as int,
        ) == body@,
{
    let t = failure_text(Failure::Upstream(body));
    assert(t.subrange(t.len() - body@.len(), t.len() as int) =~= body@);
}

} // verus!
