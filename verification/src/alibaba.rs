//! Alibaba Coding Plan quota: the endpoint configuration of each site.
use vstd::prelude::*;

verus! {

/// Endpoints and parameters of one Alibaba Cloud site.
pub struct RegionConf {
    pub host: &'static str,
    pub region_id: &'static str,
    pub commodity_code: &'static str,
    pub referer: &'static str,
}

/// Whether the credential's region selects the international site.
pub open spec fn is_global(region: Option<&str>) -> bool {
    match region {
        Some(r) => r@ == "global"@,
        None => false,
    }
}

fn region_is_global(region: Option<&str>) -> (b: bool)
    ensures
        b == is_global(region),
{
    match region {
        Some(r) => crate::text::chars_eq(&crate::text::chars_of(r), &crate::text::chars_of("global")),
        None => false,
    }
}

/// `global` selects the international site; anything else (none, `cn`,
/// unknown values) the China site.
pub fn region_conf(region: Option<&str>) -> (c: RegionConf)
    ensures
        is_global(region) ==> c.host@ == "https://modelstudio.console.alibabacloud.com"@
            && c.region_id@ == "ap-southeast-1"@ && c.commodity_code@
            == "sfm_codingplan_public_intl"@ && c.referer@
            == "https://modelstudio.console.alibabacloud.com/ap-southeast-1/?tab=coding-plan#/efm/coding_plan"@,
        !is_global(region) ==> c.host@ == "https://bailian.console.aliyun.com"@ && c.region_id@
            == "cn-beijing"@ && c.commodity_code@ == "sfm_codingplan_public_cn"@ && c.referer@
            == "https://bailian.console.aliyun.com/cn-beijing/?tab=model#/efm/coding_plan"@,
{
    if region_is_global(region) {
        RegionConf {
            host: "https://modelstudio.console.alibabacloud.com",
            region_id: "ap-southeast-1",
            commodity_code: "sfm_codingplan_public_intl",
            referer: "https://modelstudio.console.alibabacloud.com/ap-southeast-1/?tab=coding-plan#/efm/coding_plan",
        }
    } else {
        RegionConf {
            host: "https://bailian.console.aliyun.com",
            region_id: "cn-beijing",
            commodity_code: "sfm_codingplan_public_cn",
            referer: "https://bailian.console.aliyun.com/cn-beijing/?tab=model#/efm/coding_plan",
        }
    }
}

} // verus!
