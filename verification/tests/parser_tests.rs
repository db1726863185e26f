use idv_asas::checker::{Entry, ResourceDb};
use idv_asas::parser::{
    parse_and_validate, split_plans_v, truncate_to_sentence_v, try_parse_and_validate, ParseError, Plan,
};

fn entry(zh: &str, stem: &str) -> Entry {
    Entry { zh: zh.to_string(), stem: stem.to_string(), path: format!("characters/{stem}.md") }
}

fn db() -> ResourceDb {
    ResourceDb {
        maps: vec![entry("军工厂", "arms-factory")],
        survivors: vec![
            entry("佣兵", "mercenary"),
            entry("古董商", "antiquarian"),
            entry("作曲家", "composer"),
            entry("空军", "coordinator"),
            entry("医生", "doctor"),
        ],
    }
}

const SAMPLE: &str = "方案 1：\n5 号选点：佣兵：回光返照、化险为夷\n2 号选点：古董商：回光返照、飞轮效应\n6 号选点：作曲家：回光返照、膝跳反射\n8 号选点：空军：回光返照、化险为夷\n具体描述及分析：前锋利用中场板窗承担抗压牵制。";

fn points(p: &Plan) -> Vec<u32> {
    p.selections.iter().map(|s| s.point).collect()
}

#[test]
fn sample_plan_from_the_system_prompt_is_accepted() {
    let plans = parse_and_validate(SAMPLE, &db(), 12).ok().unwrap();
    assert_eq!(plans.len(), 1);
    let p = &plans[0];
    assert_eq!(p.index, 0);
    assert_eq!(points(p), vec![5, 2, 6, 8]);
    assert_eq!(p.selections[0].character, "佣兵");
    assert_eq!(p.selections[0].talents, vec!["回光返照".to_string(), "化险为夷".to_string()]);
    assert_eq!(p.selections[3].character, "空军");
    assert_eq!(p.description, "前锋利用中场板窗承担抗压牵制。");
}

#[test]
fn preamble_is_skipped_and_plans_are_kept_in_order() {
    let raw = format!(
        "好的，以下是方案。\n\n{SAMPLE}\n\n方案 2：\n1 号选点：医生：飞轮效应/膝跳反射\n2 号选点：佣兵：回光返照，化险为夷\n3 号选点：空军：回光返照 化险为夷\n4 号选点：作曲家：回光返照,膝跳反射。\n描述：第二套。\n第二行。"
    );
    let plans = parse_and_validate(&raw, &db(), 12).ok().unwrap();
    assert_eq!(plans.len(), 2);
    assert_eq!(points(&plans[1]), vec![1, 2, 3, 4]);
    assert_eq!(plans[1].selections[0].talents, vec!["飞轮效应".to_string(), "膝跳反射".to_string()]);
    assert_eq!(plans[1].selections[3].talents, vec!["回光返照".to_string(), "膝跳反射".to_string()]);
    assert_eq!(plans[1].description, "第二套。\n第二行。");
}

#[test]
fn no_plan_header_gives_not_enough_plans() {
    let r = parse_and_validate("没有任何方案", &db(), 12);
    assert!(matches!(r, Err(ParseError::NotEnoughPlans)));
    // a header needs no colon: the plan is found, and it is too short
    let r = parse_and_validate("方案 1\n5 号选点：佣兵：回光返照、化险为夷", &db(), 12);
    assert!(matches!(r, Err(ParseError::WrongCharacterCount(1))));
}

#[test]
fn every_line_starting_with_the_plan_word_separates_plans() {
    let raw: Vec<char> = "方案 1\nA\n方案 2\nB".chars().collect();
    let texts: Vec<String> = split_plans_v(&raw).iter().map(|t| t.iter().collect()).collect();
    assert_eq!(texts, vec!["方案 1\nA".to_string(), "方案 2\nB".to_string()]);
    let without_colons = SAMPLE.replace("方案 1：", "方案一");
    let plans = parse_and_validate(&without_colons, &db(), 12).ok().unwrap();
    assert_eq!(plans.len(), 1);
}

#[test]
fn unknown_character_in_first_plan_fails() {
    let raw = SAMPLE.replace("古董商", "厂长");
    match parse_and_validate(&raw, &db(), 12) {
        Err(ParseError::InvalidCharacter(n)) => assert_eq!(n, "厂长"),
        _ => panic!("expected InvalidCharacter"),
    }
}

#[test]
fn character_found_by_stem_in_any_case() {
    let raw = SAMPLE.replace("古董商", "Antiquarian");
    let plans = parse_and_validate(&raw, &db(), 12).ok().unwrap();
    assert_eq!(plans[0].selections[1].character, "Antiquarian");
}

#[test]
fn failing_later_plan_is_dropped() {
    let bad = SAMPLE.replace("方案 1", "方案 2").replace("佣兵", "厂长");
    let raw = format!("{SAMPLE}\n{bad}");
    let plans = parse_and_validate(&raw, &db(), 12).ok().unwrap();
    assert_eq!(plans.len(), 1);
}

#[test]
fn wrong_counts_and_ranges_are_reported() {
    let three = SAMPLE.replace("8 号选点：空军：回光返照、化险为夷\n", "");
    assert!(matches!(parse_and_validate(&three, &db(), 12), Err(ParseError::WrongCharacterCount(3))));

    let one_talent = SAMPLE.replace("古董商：回光返照、飞轮效应", "古董商：回光返照");
    match parse_and_validate(&one_talent, &db(), 12) {
        Err(ParseError::WrongTalentCount(c, n)) => {
            assert_eq!(c, "古董商");
            assert_eq!(n, 1);
        },
        _ => panic!("expected WrongTalentCount"),
    }

    let bad_talent = SAMPLE.replace("飞轮效应", "搏命挣扎");
    match parse_and_validate(&bad_talent, &db(), 12) {
        Err(ParseError::InvalidTalent(t)) => assert_eq!(t, "搏命挣扎"),
        _ => panic!("expected InvalidTalent"),
    }

    assert!(matches!(parse_and_validate(SAMPLE, &db(), 7), Err(ParseError::PointOutOfRange(8, 7))));
    let zero = SAMPLE.replace("5 号选点", "0 号选点");
    assert!(matches!(parse_and_validate(&zero, &db(), 12), Err(ParseError::PointOutOfRange(0, 12))));

    let dup = SAMPLE.replace("6 号选点", "2 号选点");
    assert!(matches!(parse_and_validate(&dup, &db(), 12), Err(ParseError::DuplicatePoint(2))));
}

#[test]
fn long_description_is_cut_at_a_sentence_end() {
    let long = format!("{}。{}", "甲".repeat(60), "乙".repeat(60));
    let raw = SAMPLE.replace("前锋利用中场板窗承担抗压牵制。", &long);
    let plans = parse_and_validate(&raw, &db(), 12).ok().unwrap();
    assert_eq!(plans[0].description, format!("{}。…", "甲".repeat(60)));

    let no_end = "丙".repeat(120);
    let raw = SAMPLE.replace("前锋利用中场板窗承担抗压牵制。", &no_end);
    let plans = parse_and_validate(&raw, &db(), 12).ok().unwrap();
    assert_eq!(plans[0].description, format!("{}…", "丙".repeat(100)));
}

#[test]
fn description_of_exactly_one_hundred_characters_is_kept() {
    let exact = "丁".repeat(100);
    let raw = SAMPLE.replace("前锋利用中场板窗承担抗压牵制。", &exact);
    let plans = parse_and_validate(&raw, &db(), 12).ok().unwrap();
    assert_eq!(plans[0].description, exact);
}

#[test]
fn ascii_colons_and_place_word() {
    // two ASCII characters after the ASCII colon are stepped over with it
    let raw = SAMPLE.replace("佣兵：回光返照", "放置佣兵:  回光返照");
    let plans = parse_and_validate(&raw, &db(), 12).ok().unwrap();
    assert_eq!(plans[0].selections[0].character, "佣兵");
    assert_eq!(plans[0].selections[0].talents[0], "回光返照");
}

#[test]
fn ascii_colon_before_a_wide_character_is_refused() {
    let raw = SAMPLE.replace("佣兵：回光返照", "佣兵:回光返照");
    assert!(try_parse_and_validate(&raw, &db(), 12).is_none());
    // but not when an earlier failure ends the reading first
    let raw2 = format!("{}\n{}", SAMPLE.replace("古董商", "厂长"), raw.replace("方案 1", "方案 2"));
    assert!(matches!(try_parse_and_validate(&raw2, &db(), 12), Some(Err(ParseError::InvalidCharacter(_)))));
}

#[test]
fn error_messages() {
    assert_eq!(ParseError::NotEnoughPlans.message(), "模型未返回任何有效方案");
    assert_eq!(ParseError::InvalidCharacter("厂长".into()).message(), "角色「厂长」不存在");
    assert_eq!(ParseError::InvalidTalent("x".into()).message(), "天赋「x」不存在");
    assert_eq!(
        ParseError::WrongTalentCount("佣兵".into(), 3).message(),
        "角色「佣兵」的天赋数量为 3，应为 2"
    );
    assert_eq!(ParseError::PointOutOfRange(13, 12).message(), "选点编号 13 超出地图范围（最大 12）");
    assert_eq!(ParseError::DuplicatePoint(5).message(), "选点编号 5 重复");
    assert_eq!(ParseError::WrongCharacterCount(10).message(), "方案中角色数量为 10，应为 4");
    assert_eq!(ParseError::NoValidPlans.message(), "无有效方案");
}

#[test]
fn accepted_plans_are_valid() {
    let raw = format!("{SAMPLE}\n方案 2：\n1 号选点：医生：飞轮效应、膝跳反射\n2 号选点：佣兵：回光返照、化险为夷\n3 号选点：空军：回光返照、化险为夷\n4 号选点：作曲家：回光返照、膝跳反射\n描述：{}", "戊".repeat(150));
    let max = 12;
    let plans = parse_and_validate(&raw, &db(), max).ok().unwrap();
    assert!(!plans.is_empty());
    let valid = ["回光返照", "飞轮效应", "膝跳反射", "化险为夷"];
    for p in &plans {
        assert_eq!(p.selections.len(), 4);
        let mut seen = Vec::new();
        for s in &p.selections {
            assert!(db().find_character(&s.character).is_some());
            assert_eq!(s.talents.len(), 2);
            assert!(s.talents.iter().all(|t| valid.contains(&t.as_str())));
            assert!(s.point >= 1 && s.point <= max);
            assert!(!seen.contains(&s.point));
            seen.push(s.point);
        }
        let n = p.description.trim().chars().count();
        assert!(n <= 100 || (p.description.chars().count() <= 101 && p.description.ends_with('…')));
    }
}

#[test]
fn plan_texts_open_with_a_header() {
    let raw: Vec<char> = "前言\n  方案 1：\n a \n\n方案 2：b\n".chars().collect();
    let texts: Vec<String> = split_plans_v(&raw).iter().map(|t| t.iter().collect()).collect();
    assert_eq!(texts, vec!["方案 1：\na".to_string(), "方案 2：b".to_string()]);
    for t in &texts {
        assert!(t.starts_with("方案"));
    }
}

#[test]
fn cut_after_the_last_sentence_end_within_the_limit() {
    let cut = |s: &str, max: usize| -> String {
        let v: Vec<char> = s.chars().collect();
        truncate_to_sentence_v(&v, max).iter().collect()
    };
    assert_eq!(cut("ab!cd", 4), "ab!…");
    assert_eq!(cut("abc.d", 4), "abc.…");
    assert_eq!(cut("a.b;cdef", 5), "a.b;…");
    assert_eq!(cut("abcd.", 4), "abcd…");
    assert_eq!(cut("abcd", 4), "abcd");
    assert_eq!(cut("好。好！好", 3), "好。…");
}
