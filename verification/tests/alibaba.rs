use zbar::alibaba::region_conf;

#[test]
fn region_maps_to_conf() {
    let intl = region_conf(Some("global"));
    assert_eq!(intl.host, "https://modelstudio.console.alibabacloud.com");
    assert_eq!(intl.region_id, "ap-southeast-1");
    assert_eq!(intl.commodity_code, "sfm_codingplan_public_intl");

    for region in [None, Some("cn"), Some("weird")] {
        let cn = region_conf(region);
        assert_eq!(cn.host, "https://bailian.console.aliyun.com");
        assert_eq!(cn.region_id, "cn-beijing");
        assert_eq!(cn.commodity_code, "sfm_codingplan_public_cn");
    }
}
