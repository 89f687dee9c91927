use grpnice::record::adjust;
use grpnice::record::adjust_record;
use grpnice::record::split_fields;
use grpnice::record::AdjustError;
use grpnice::record::IoFailure;

#[test]
fn plain_increase() {
    let a = adjust_record("/user.slice 0\n", 10).unwrap();
    assert_eq!(a.group, "/user.slice");
    assert_eq!(a.old_niceness, 0);
    assert_eq!(a.new_niceness, 10);
    assert_eq!(a.new_content, "/user.slice 10\n");
}

#[test]
fn clamped_increase() {
    let a = adjust_record("/user.slice 15\n", 10).unwrap();
    assert_eq!(a.old_niceness, 15);
    assert_eq!(a.new_niceness, 19);
    assert_eq!(a.new_content, "/user.slice 19\n");
}

#[test]
fn clamped_decrease() {
    let a = adjust_record("/user.slice -18\n", -5).unwrap();
    assert_eq!(a.old_niceness, -18);
    assert_eq!(a.new_niceness, -20);
    assert_eq!(a.new_content, "/user.slice -20\n");
}

#[test]
fn zero_adjustment_preserves_fields() {
    let a = adjust_record("/foo 5\n", 0).unwrap();
    assert_eq!(a.group, "/foo");
    assert_eq!(a.old_niceness, 5);
    assert_eq!(a.new_niceness, 5);
    assert_eq!(a.new_content, "/foo 5\n");
}

#[test]
fn single_field_is_malformed() {
    assert!(matches!(adjust_record("justonefield\n", 10), Err(AdjustError::Malformed)));
}

#[test]
fn missing_file_is_unavailable() {
    let r = adjust(Err(IoFailure::NotFound), 10);
    assert!(matches!(r, Err(AdjustError::Unavailable(IoFailure::NotFound))));
}

#[test]
fn permission_denied_is_unavailable() {
    let r = adjust(Err(IoFailure::PermissionDenied), 0);
    assert!(matches!(r, Err(AdjustError::Unavailable(IoFailure::PermissionDenied))));
}

#[test]
fn other_io_failure_is_unavailable() {
    let r = adjust(Err(IoFailure::Other), -3);
    assert!(matches!(r, Err(AdjustError::Unavailable(IoFailure::Other))));
}

#[test]
fn successful_read_is_adjusted() {
    let a = adjust(Ok("/user.slice 0\n".to_string()), 10).unwrap();
    assert_eq!(a.new_content, "/user.slice 10\n");
}

#[test]
fn non_numeric_niceness_is_malformed() {
    assert!(matches!(adjust_record("/grp abc\n", 1), Err(AdjustError::Malformed)));
}

#[test]
fn empty_content_is_malformed() {
    assert!(matches!(adjust_record("", 1), Err(AdjustError::Malformed)));
    assert!(matches!(adjust_record("\n", 1), Err(AdjustError::Malformed)));
}

#[test]
fn pinned_at_upper_bound() {
    let a = adjust_record("/g 19\n", 5).unwrap();
    assert_eq!(a.old_niceness, 19);
    assert_eq!(a.new_niceness, 19);
}

#[test]
fn pinned_at_lower_bound() {
    let a = adjust_record("/g -20\n", -5).unwrap();
    assert_eq!(a.old_niceness, -20);
    assert_eq!(a.new_niceness, -20);
}

#[test]
fn large_positive_saturates() {
    let a = adjust_record("/g -20\n", 1000).unwrap();
    assert_eq!(a.new_niceness, 19);
}

#[test]
fn large_negative_saturates() {
    let a = adjust_record("/g 19\n", -1000).unwrap();
    assert_eq!(a.new_niceness, -20);
}

#[test]
fn out_of_range_niceness_is_clamped() {
    let a = adjust_record("/g 100\n", 0).unwrap();
    assert_eq!(a.old_niceness, 100);
    assert_eq!(a.new_niceness, 19);
}

#[test]
fn extra_fields_preserved() {
    let a = adjust_record("/g extra 3\n", 1).unwrap();
    assert_eq!(a.group, "/g");
    assert_eq!(a.old_niceness, 3);
    assert_eq!(a.new_content, "/g extra 4\n");
}

#[test]
fn whitespace_is_normalized() {
    let a = adjust_record("/g \t 7\n", 0).unwrap();
    assert_eq!(a.new_content, "/g 7\n");
}

#[test]
fn split_drops_empty_pieces() {
    let f = split_fields(" a  b \n");
    assert_eq!(f, vec!["a".to_string(), "b".to_string()]);
}

#[test]
fn split_of_empty_text_is_empty() {
    assert_eq!(split_fields(""), Vec::<String>::new());
    assert_eq!(split_fields(" \n\t"), Vec::<String>::new());
}
