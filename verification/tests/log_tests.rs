use wml_comparer::comparison_log::{ComparisonLog, ComparisonLogCode};

#[test]
fn error_count_counts_errors_only() {
    let mut log = ComparisonLog::new();
    assert_eq!(log.error_count(), 0);
    log.info("start".to_string());
    log.error("bad part".to_string());
    log.warning("odd".to_string());
    log.error("worse".to_string());
    assert_eq!(log.error_count(), 2);
    assert_eq!(log.entries.len(), 4);
    assert_eq!(log.entries[1].code, ComparisonLogCode::Error);
    assert_eq!(log.entries[1].message, "bad part");
}
