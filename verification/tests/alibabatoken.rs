use zbar::alibabatoken::{
    append_sec_token, auth_error_of, cookie_value, display_plan_name, extract_sec_token_from_html,
    failure_message, form_urlencode, is_likely_login_html, pseudo_uuid, region_conf, Failure,
    PayloadError,
};

#[test]
fn region_conf_splits_international_and_china() {
    let intl = region_conf(Some("global"));
    assert_eq!(intl.gateway, "https://modelstudio.console.alibabacloud.com");
    assert_eq!(intl.quota_host, "https://bailian-singapore-cs.alibabacloud.com");
    assert_eq!(intl.region_id, "ap-southeast-1");
    assert_eq!(intl.gateway_action, "IntlBroadScopeAspnGateway");
    assert_eq!(intl.console_site, "MODELSTUDIO_ALBABACLOUD");
    assert_eq!(intl.team_product, "sfm_tokenplanteams_dp_intl");
    assert_eq!(intl.solo_product, "sfm_tokenplansolo_public_intl");
    assert!(intl.personal_dashboard.ends_with("/token-plan/personal"));

    for region in [None, Some("cn"), Some("weird")] {
        let cn = region_conf(region);
        assert_eq!(cn.gateway, "https://bailian.console.aliyun.com");
        assert_eq!(cn.quota_host, "https://bailian-cs.console.aliyun.com");
        assert_eq!(cn.region_id, "cn-beijing");
        assert_eq!(cn.gateway_action, "BroadScopeAspnGateway");
        assert_eq!(cn.console_site, "BAILIAN_ALIYUN");
        assert_eq!(cn.team_product, "sfm_tokenplanteams_dp_cn");
        assert_eq!(cn.solo_product, "sfm_tokenplansolo_public_cn");
    }
}

#[test]
fn extracts_sec_token_from_html_and_cookie() {
    assert_eq!(
        extract_sec_token_from_html(r#"window.ALIYUN_CONSOLE_CONFIG={SEC_TOKEN: "tok-1",a:1}"#).as_deref(),
        Some("tok-1")
    );
    assert_eq!(extract_sec_token_from_html(r#"{"secToken":"tok-2"}"#).as_deref(), Some("tok-2"));
    assert_eq!(extract_sec_token_from_html("sec_token: 'tok-3'").as_deref(), Some("tok-3"));
    assert_eq!(extract_sec_token_from_html(r#"secToken ="tok-4""#).as_deref(), Some("tok-4"));
    assert_eq!(extract_sec_token_from_html("no token here"), None);
    assert_eq!(extract_sec_token_from_html("secToken= bare"), None);

    let cookie = "cna=xyz; login_aliyunid_csrf=csrf-1; sec_token=tok-5; uid=1";
    assert_eq!(cookie_value(cookie, "sec_token"), Some("tok-5"));
    assert_eq!(cookie_value(cookie, "login_aliyunid_csrf"), Some("csrf-1"));
    assert_eq!(cookie_value(cookie, "SEC_TOKEN"), None);
    assert_eq!(cookie_value(cookie, "missing"), None);
}

#[test]
fn form_encoding_escapes_everything_but_unreserved() {
    assert_eq!(form_urlencode("a-b_c.d~e"), "a-b_c.d~e");
    assert_eq!(form_urlencode("a b/c=d&e"), "a%20b%2Fc%3Dd%26e");
    assert_eq!(form_urlencode("中文"), "%E4%B8%AD%E6%96%87");
    let mut body = "product=x".to_string();
    append_sec_token(&mut body, Some("  t k  "));
    assert_eq!(body, "product=x&sec_token=t%20k");
    append_sec_token(&mut body, Some("   "));
    append_sec_token(&mut body, None);
    assert_eq!(body, "product=x&sec_token=t%20k");
}

#[test]
fn auth_errors_are_classified_workspace_first() {
    assert!(matches!(
        auth_error_of(Some("BailianGateway.Workspace.NotAuthorised"), None),
        Some(PayloadError::WorkspaceNotAuthorised)
    ));
    assert!(matches!(auth_error_of(None, Some("NeedLogin")), Some(PayloadError::LoginRequired)));
    assert!(matches!(
        auth_error_of(Some("403"), Some("Access Denied")),
        Some(PayloadError::InvalidCredentials)
    ));
    assert!(auth_error_of(None, None).is_none());
    assert!(auth_error_of(Some("rate limited"), None).is_none());
}

#[test]
fn login_pages_and_failure_texts() {
    assert!(is_likely_login_html("<!DOCTYPE html><html><body>please login</body></html>"));
    assert!(!is_likely_login_html("{\"login\":1}"));
    assert_eq!(failure_message(&Failure::Expired), None);
    assert_eq!(
        failure_message(&Failure::Http(500)).as_deref(),
        Some("百炼 Token 包查询失败（HTTP 500）")
    );
    assert_eq!(
        failure_message(&Failure::Api("rate limited".into())).as_deref(),
        Some("百炼平台返回错误: rate limited")
    );
    assert_eq!(
        failure_message(&Failure::NotAuthorised).as_deref(),
        Some("缺少控制台 sec_token，请从百炼订阅页请求中复制完整 Cookie")
    );
    assert_eq!(display_plan_name("max"), "Max");
    assert_eq!(display_plan_name("MAX"), "MAX");
}

#[test]
fn form_urlencode_and_pseudo_uuid_shapes() {
    assert_eq!(form_urlencode("a-b_c.d~e"), "a-b_c.d~e");
    assert_eq!(form_urlencode("a b/c=d&e"), "a%20b%2Fc%3Dd%26e");
    assert_eq!(form_urlencode("中文"), "%E4%B8%AD%E6%96%87");
    let uuid = pseudo_uuid(1_723_456_789_123_456_789, 4242);
    assert_eq!(uuid.len(), 36);
    assert_eq!(uuid.matches('-').count(), 4);
    assert!(uuid.chars().all(|c| c.is_ascii_hexdigit() || c == '-'));
}

#[test]
fn pseudo_uuid_follows_the_xorshift_stream() {
    let (nanos, pid) = (987_654_321u64, 77u32);
    let mut state = nanos ^ ((pid as u64) << 32) ^ 0x9e37_79b9_7f4a_7c15;
    let mut next = || {
        state ^= state << 13;
        state ^= state >> 7;
        state ^= state << 17;
        state
    };
    let expected = format!(
        "{:08x}-{:04x}-{:04x}-{:04x}-{:012x}",
        next() & 0xffff_ffff,
        next() & 0xffff,
        next() & 0xffff,
        next() & 0xffff,
        next() & 0xffff_ffff_ffff
    );
    assert_eq!(pseudo_uuid(nanos, pid), expected);
    assert_ne!(pseudo_uuid(nanos + 1, pid), expected);
}
