use idv_asas::checker::Entry;
use idv_asas::prompt::{compact_request, fmt_req, full_request, system_prompt, RoundSpec};

fn entry(zh: &str) -> Entry {
    Entry { zh: zh.to_string(), stem: String::new(), path: String::new() }
}

#[test]
fn compact_request_text() {
    let map = entry("军工厂");
    let a = entry("医生");
    let b = entry("律师");
    let spec = RoundSpec { index: 12, map: &map, survivors: vec![&a, &b], global_req: "  稳一点 ", round_req: " " };
    assert_eq!(
        compact_request(&spec),
        "【第 12 局】\n地图：军工厂\n求生者：医生、律师\n全局需求：稳一点\n本局需求：（无）\n（该局地图与角色详细资料此处从略）"
    );
}

#[test]
fn full_request_text_starts_with_the_compact_one() {
    let map = entry("军工厂");
    let a = entry("医生");
    let spec = RoundSpec { index: 1, map: &map, survivors: vec![&a], global_req: "", round_req: "快" };
    let full = full_request(&spec, "地图资料", &vec!["医生资料".to_string()]);
    let compact = compact_request(&spec);
    assert!(full.starts_with(&compact));
    assert_eq!(
        &full[compact.len()..],
        "\n（以上为本局全部输入。此前的历史局记录见对话上文，其方案结果仅供参考，全局需求对每一局均生效。）\n\n【本局地图资料：军工厂】\n地图资料\n\n【角色资料：医生】\n医生资料\n\n请结合以上资料与全部需求，给出 2~3 套天赋选择与区域选择方案。"
    );
}

#[test]
fn requirement_formatting() {
    assert_eq!(fmt_req(""), "（无）");
    assert_eq!(fmt_req(" \n\t"), "（无）");
    assert_eq!(fmt_req(" 保人 "), "保人");
}

#[test]
fn system_prompt_quotes_the_documents_in_order() {
    let s = system_prompt("AGENTS", "GENERAL", "CHARS", "MAPS", "DICT");
    assert!(s.starts_with("你是 IDV-ASAS（《第五人格》区域选择辅助系统）的分析核心。\n\n# 你的任务\n\nAGENTS\n\n# 输出要求\n\n"));
    assert!(s.contains("方案 1：\n5 号选点：佣兵：回光返照、化险为夷\n"));
    assert!(s.contains("# 角色与地图字典\n\nDICT\n\n# 数据库通用资料\n\n## 求生者与队伍总纲\n\nGENERAL\n\n## 天赋与角色说明\n\nCHARS\n\n## 地图与选点说明\n\nMAPS\n\n# 重要覆盖说明\n\n"));
    assert!(s.ends_with("仅在\"具体描述及分析\"部分使用俗称。\n"));
    assert!(s.contains("- 选点行严格写作\"x 号选点：<求生者名称>：<具体天赋选择>\"，禁止"));
}
