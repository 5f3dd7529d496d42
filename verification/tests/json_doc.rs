use zbar::json_doc::sec_token_from_user_info;

#[test]
fn sec_token_in_nested_object_is_trimmed() {
    let body = r#"{"code":"200","data":{"secToken":"  abc  "}}"#;
    assert_eq!(sec_token_from_user_info(body).as_deref(), Some("abc"));
}

#[test]
fn sec_token_in_json_text_held_by_a_string() {
    let body = r#"{"data":"{\"sec_token\":\"xyz\"}"}"#;
    assert_eq!(sec_token_from_user_info(body).as_deref(), Some("xyz"));
}

#[test]
fn sec_token_keys_tried_in_order_before_descending() {
    let body = r#"{"sec_token":"second","secToken":"first","a":{"secToken":"deep"}}"#;
    assert_eq!(sec_token_from_user_info(body).as_deref(), Some("first"));
}

#[test]
fn sec_token_blank_value_is_skipped() {
    let body = r#"{"secToken":"   ","inner":[{"sec_token":"t1"}]}"#;
    assert_eq!(sec_token_from_user_info(body).as_deref(), Some("t1"));
}

#[test]
fn sec_token_absent_or_not_json() {
    assert_eq!(sec_token_from_user_info(r#"{"data":{"token":"x"}}"#), None);
    assert_eq!(sec_token_from_user_info("<html>login</html>"), None);
    assert_eq!(sec_token_from_user_info(r#"{"secToken":12}"#), None);
}
