use seasonal::commands::{err, ok, ok_msg, open_dialog_result, save_dialog_result, ApiResult};

#[test]
fn answers() {
    let a = ok(5);
    assert!(a.success && a.data == Some(5) && a.message.is_none() && a.error.is_none());
    let b: ApiResult<u8> = ok_msg("saved".to_string());
    assert!(b.success && b.data.is_none() && b.message.as_deref() == Some("saved"));
    let c: ApiResult<u8> = err("boom".to_string());
    assert!(!c.success && c.error.as_deref() == Some("boom") && c.data.is_none());
}

#[test]
fn dialog_answers() {
    let o = open_dialog_result(Some("/tmp/a.xlsx".to_string()));
    assert!(!o.canceled);
    assert_eq!(o.file_paths, vec!["/tmp/a.xlsx".to_string()]);
    let o = open_dialog_result(None);
    assert!(o.canceled && o.file_paths.is_empty());
    let s = save_dialog_result(None);
    assert!(s.canceled && s.file_path.is_none());
    let s = save_dialog_result(Some("x.db".to_string()));
    assert!(!s.canceled && s.file_path.as_deref() == Some("x.db"));
}
