//! Result shapes of the operations offered to a user interface.
use vstd::prelude::*;

verus! {

/// Outcome of a file-open dialog.
pub struct DialogOpenResult {
    pub canceled: bool,
    pub file_paths: Vec<String>,
}

/// Outcome of a file-save dialog.
pub struct DialogSaveResult {
    pub canceled: bool,
    pub file_path: Option<String>,
}

/// Uniform answer of an operation: success with data or a message, or an error text.
pub struct ApiResult<T> {
    pub success: bool,
    pub data: Option<T>,
    pub message: Option<String>,
    pub error: Option<String>,
}

/// Counts and date extremes of the whole store.
pub struct DbStats {
    pub total_records: i64,
    pub assets_count: i64,
    pub min_date: Option<String>,
    pub max_date: Option<String>,
}

/// Earliest and latest stored dates of one asset.
pub struct DateRange {
    pub min_date: Option<String>,
    pub max_date: Option<String>,
}

/// A successful answer carrying `data`.
pub fn ok<T>(data: T) -> (r: ApiResult<T>)
    ensures
        r.success,
        r.data == Some(data),
        r.message is None,
        r.error is None,
{
    ApiResult { success: true, data: Some(data), message: None, error: None }
}

/// A successful answer carrying a message and no data.
pub fn ok_msg<T>(msg: String) -> (r: ApiResult<T>)
    ensures
        r.success,
        r.data is None,
        r.message == Some(msg),
        r.error is None,
{
    ApiResult { success: true, data: None, message: Some(msg), error: None }
}

/// A failed answer carrying the error text.
pub fn err<T>(e: String) -> (r: ApiResult<T>)
    ensures
        !r.success,
        r.data is None,
        r.message is None,
        r.error == Some(e),
{
    ApiResult { success: false, data: None, message: None, error: Some(e) }
}

/// The answer of an open dialog: the picked path, or canceled when none was picked.
pub fn open_dialog_result(picked: Option<String>) -> (r: DialogOpenResult)
    ensures
        r.canceled == picked is None,
        match picked {
            Some(p) => r.file_paths@ == seq![p],
            None => r.file_paths@.len() == 0,
        },
{
    match picked {
        Some(p) => DialogOpenResult { canceled: false, file_paths: vec![p] },
        None => DialogOpenResult { canceled: true, file_paths: Vec::new() },
    }
}

/// The answer of a save dialog: the picked path, or canceled when none was picked.
pub fn save_dialog_result(picked: Option<String>) -> (r: DialogSaveResult)
    ensures
        r.canceled == picked is None,
        r.file_path == picked,
{
    let canceled = picked.is_none();
    DialogSaveResult { canceled, file_path: picked }
}

} // verus!
