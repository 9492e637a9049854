use hummock_time_travel::catalog::{
    check_valid_column_name, is_row_id_column_name, row_id_column_name, ColumnNameError,
};

#[test]
fn row_id_name() {
    assert_eq!(row_id_column_name(), "_row_id");
    assert!(is_row_id_column_name(&row_id_column_name()));
}

#[test]
fn row_id_prefix_detection() {
    assert!(is_row_id_column_name("_row_id"));
    assert!(is_row_id_column_name("_row_id_1"));
    assert!(!is_row_id_column_name("_row_i"));
    assert!(!is_row_id_column_name("row_id"));
    assert!(!is_row_id_column_name("v1"));
    assert!(!is_row_id_column_name(""));
}

#[test]
fn reserved_column_names_are_refused() {
    assert_eq!(check_valid_column_name("_row_id_x"), Err(ColumnNameError::ReservedPrefix));
    assert_eq!(check_valid_column_name("_row_id"), Err(ColumnNameError::ReservedPrefix));
    assert_eq!(check_valid_column_name("row_id"), Ok(()));
    assert_eq!(check_valid_column_name("v"), Ok(()));
}
