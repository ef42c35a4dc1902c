//! What the other commands of the user interface decide and report.

use crate::text;
use vstd::prelude::*;

verus! {

/// The two looks of the window.
#[derive(Clone, Copy, Debug, PartialEq, Eq, Structural)]
pub enum Theme {
    Light,
    Dark,
}

/// The look that is asked for by name: light under that name, dark under any other.
pub fn window_theme(name: &String) -> (theme: Theme)
    ensures
        theme == if name@ == "light"@ {
            Theme::Light
        } else {
            Theme::Dark
        },
{
    if *name == "light".to_owned() {
        Theme::Light
    } else {
        Theme::Dark
    }
}

/// What became of a path that was to be deleted.
#[derive(Debug)]
pub struct DeleteResult {
    pub path: String,
    pub ok: bool,
    pub error: Option<String>,
}

/// What `result` must say of a path, given why its deletion failed, if it did.
pub open spec fn tells(result: DeleteResult, attempt: (String, Option<String>)) -> bool {
    &&& result.path == attempt.0
    &&& result.ok == (attempt.1 is None)
    &&& result.error == attempt.1
}

/// Reports on paths that were to be deleted, in their order. With each path comes why it could not
/// be, or `None` if it was.
pub fn delete_files(attempts: Vec<(String, Option<String>)>) -> (results: Vec<DeleteResult>)
    ensures
        results@.len() == attempts@.len(),
        forall|i: int|
            0 <= i < attempts@.len() ==> tells(#[trigger] results@[i], attempts@[i]),
        forall|i: int|
            0 <= i < attempts@.len() ==> (#[trigger] results@[i]).path == attempts@[i].0
                && results@[i].ok == (attempts@[i].1 is None) && results@[i].error
                == attempts@[i].1,
{
    let mut results: Vec<DeleteResult> = Vec::new();
    for attempt in rest: attempts
        invariant
            rest.seq() == attempts@,
            results@.len() == rest.index(),
            forall|i: int|
                0 <= i < rest.index() ==> tells(#[trigger] results@[i], attempts@[i]),
    {
        let (path, error) = attempt;
        let ok = error.is_none();
        results.push(DeleteResult { path, ok, error });
    }
    results
}

/// What became of an export.
#[derive(Debug)]
pub struct ExportResult {
    pub ok: bool,
    pub error: Option<String>,
}

/// How the writing of an export went.
pub enum ExportOutcome {
    /// The dialog could not be shown.
    DialogFailed(String),
    /// No file was chosen.
    Cancelled,
    /// What was chosen is no path.
    NoPath(String),
    /// The file could not be written.
    WriteFailed(String),
    /// The file was written.
    Written,
}

/// What is to be saved, and under which kind of file the dialog offers it.
pub struct ExportPlan {
    pub content: String,
    pub filter_name: &'static str,
    pub ext: &'static str,
}

/// What a file of `format` holds: a CSV file under the format "csv", aligned text under any other.
pub open spec fn exported(
    format: Seq<char>,
    headers: Seq<Seq<char>>,
    rows: Seq<Seq<Seq<char>>>,
) -> Seq<char> {
    if format == "csv"@ {
        crate::export::csv_text(headers, rows)
    } else {
        crate::export::aligned_text(headers, rows)
    }
}

/// What is exported as CSV reads back as the same table, whatever the table; under any other format
/// it is the aligned text of the table.
pub proof fn law_exports_by_format(
    format: Seq<char>,
    headers: Seq<Seq<char>>,
    rows: Seq<Seq<Seq<char>>>,
)
    ensures
        format == "csv"@ ==> exported(format, headers, rows) == crate::export::csv_text(
            headers,
            rows,
        ),
        format == "csv"@ ==> crate::table_laws::csv_table(exported(format, headers, rows)) == Some(
            seq![headers] + rows,
        ),
        format != "csv"@ ==> exported(format, headers, rows) == crate::export::aligned_text(
            headers,
            rows,
        ),
{
    crate::table_laws::law_csv_reads_back(headers, rows);
}

/// Prepares an export: what is to be saved, and how the dialog names that kind of file. The content
/// starts with a byte order mark, by which spreadsheets know it for UTF-8.
pub fn export_data(format: &String, headers: &[String], rows: &[Vec<String>]) -> (plan: ExportPlan)
    ensures
        plan.content@ == seq!['\u{feff}'] + exported(
            format@,
            text::texts(headers@),
            crate::export::cells(rows@),
        ),
        plan.content@.len() > 0,
        plan.content@[0] == '\u{feff}',
        format@ == "csv"@ ==> plan.content@.skip(1) == crate::export::csv_text(
            text::texts(headers@),
            crate::export::cells(rows@),
        ),
        format@ == "csv"@ ==> crate::table_laws::csv_table(plan.content@.skip(1)) == Some(
            seq![text::texts(headers@)] + crate::export::cells(rows@),
        ),
        format@ != "csv"@ ==> plan.content@.skip(1) == crate::export::aligned_text(
            text::texts(headers@),
            crate::export::cells(rows@),
        ),
        format@ == "csv"@ ==> plan.filter_name@ == "CSV Files"@ && plan.ext@ == "csv"@,
        format@ != "csv"@ ==> plan.filter_name@ == "Text Files"@ && plan.ext@ == "txt"@,
{
    let csv = *format == "csv".to_owned();
    let mut content = String::new();
    content.push('\u{feff}');
    let body = if csv {
        crate::export::build_csv(headers, rows)
    } else {
        crate::export::build_txt(headers, rows)
    };
    assert(content@ =~= seq!['\u{feff}']);
    content.append(body.as_str());
    proof {
        assert(content@.skip(1) =~= body@);
        crate::table_laws::law_csv_reads_back(text::texts(headers@), crate::export::cells(rows@));
    }
    if csv {
        ExportPlan { content, filter_name: "CSV Files", ext: "csv" }
    } else {
        ExportPlan { content, filter_name: "Text Files", ext: "txt" }
    }
}

/// Reports on an export. A failure to write, or a dialog that was closed, is a result; a failure to
/// get as far as that is an error.
pub fn export_result(outcome: ExportOutcome) -> (result: Result<ExportResult, String>)
    ensures
        result == match outcome {
            ExportOutcome::DialogFailed(message) => Err(message),
            ExportOutcome::Cancelled => Ok(ExportResult { ok: false, error: None }),
            ExportOutcome::NoPath(message) => Err(message),
            ExportOutcome::WriteFailed(message) => Ok(
                ExportResult { ok: false, error: Some(message) },
            ),
            ExportOutcome::Written => Ok(ExportResult { ok: true, error: None }),
        },
{
    match outcome {
        ExportOutcome::DialogFailed(message) => Err(message),
        ExportOutcome::Cancelled => Ok(ExportResult { ok: false, error: None }),
        ExportOutcome::NoPath(message) => Err(message),
        ExportOutcome::WriteFailed(message) => Ok(ExportResult { ok: false, error: Some(message) }),
        ExportOutcome::Written => Ok(ExportResult { ok: true, error: None }),
    }
}

} // verus!
