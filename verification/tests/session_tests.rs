use idv_asas::api::Usage;
use idv_asas::checker::{Entry, ResourceDb};
use idv_asas::parser::{parse_and_validate, ParseError};
use idv_asas::session::{
    after_reply, build_messages, estimate_tokens, picker_slot, prompt_chars, select_round, talent_stem,
    finish_round, prepare_round, toggle_map, toggle_survivor, PastRound, ReplyAction, Role,
    RoundError,
};

fn entry(zh: &str, stem: &str) -> Entry {
    Entry { zh: zh.to_string(), stem: stem.to_string(), path: String::new() }
}

fn db() -> ResourceDb {
    ResourceDb {
        maps: vec![entry("军工厂", "arms-factory")],
        survivors: vec![entry("医生", "doctor"), entry("律师", "lawyer")],
    }
}

#[test]
fn talent_icon_stems() {
    assert_eq!(talent_stem("回光返照"), "borrowed-time");
    assert_eq!(talent_stem("飞轮效应"), "flywheel-effect");
    assert_eq!(talent_stem("膝跳反射"), "knee-jerk-reflex");
    assert_eq!(talent_stem("化险为夷"), "tide-turner");
    assert_eq!(talent_stem("搏命挣扎"), "");
}

#[test]
fn conversation_recalls_past_rounds() {
    let rounds = vec![
        PastRound { compact_request: "第一局".into(), assistant_reply: "方案A".into() },
        PastRound { compact_request: "第二局".into(), assistant_reply: "  ".into() },
    ];
    let ms = build_messages("系统", &rounds, "本局");
    let roles: Vec<Role> = ms.iter().map(|m| m.role).collect();
    assert_eq!(roles, vec![Role::System, Role::User, Role::Assistant, Role::User, Role::Assistant, Role::User]);
    let texts: Vec<&str> = ms.iter().map(|m| m.content.as_str()).collect();
    assert_eq!(texts, vec!["系统", "第一局", "方案A", "第二局", "（该局分析被打断，未生成结果）", "本局"]);
    assert_eq!(prompt_chars(&ms), 2 + 3 + 3 + 3 + 15 + 2);
}

#[test]
fn token_estimate_rounds_up() {
    assert_eq!(estimate_tokens(0), 0);
    assert_eq!(estimate_tokens(1), 1);
    assert_eq!(estimate_tokens(4), 3);
    assert_eq!(estimate_tokens(5), 4);
    assert_eq!(estimate_tokens(10), 8);
}

#[test]
fn replies_lead_to_plans_retries_or_giving_up() {
    assert!(matches!(after_reply("x", true, None, 0, Err(ParseError::NotEnoughPlans), 0), ReplyAction::Interrupted));

    match after_reply("答复", false, None, 10, Ok(vec![]), 0) {
        ReplyAction::Accept { usage, estimated, .. } => {
            assert!(estimated);
            assert_eq!(usage, Usage { prompt_tokens: 8, completion_tokens: 2 });
        },
        _ => panic!("expected Accept"),
    }
    let reported = Usage { prompt_tokens: 7, completion_tokens: 9 };
    match after_reply("答复", false, Some(reported), 10, Ok(vec![]), 2) {
        ReplyAction::Accept { usage, estimated, .. } => {
            assert!(!estimated);
            assert_eq!(usage, reported);
        },
        _ => panic!("expected Accept"),
    }
    match after_reply("坏答复", false, None, 0, Err(ParseError::DuplicatePoint(3)), 2) {
        ReplyAction::Retry { retry_count, answer, feedback } => {
            assert_eq!(retry_count, 3);
            assert_eq!(answer, "坏答复");
            assert_eq!(
                feedback,
                "你的输出有误：选点编号 3 重复。请严格按照格式要求重新生成。\n格式要求：\n- 每套方案6行：方案编号行、4行选点行、1行描述行。\n- 选点行格式：x 号选点：角色名：天赋1、天赋2\n- 描述行以\"具体描述及分析：\"开头，不超过100字。\n- 不要输出其他内容。"
            );
        },
        _ => panic!("expected Retry"),
    }
    assert!(matches!(after_reply("坏答复", false, None, 0, Err(ParseError::NotEnoughPlans), 3), ReplyAction::GiveUp));
}

#[test]
fn accepted_reply_keeps_the_plans() {
    let db = ResourceDb {
        maps: vec![],
        survivors: vec![entry("佣兵", "mercenary"), entry("古董商", "a"), entry("作曲家", "c"), entry("空军", "d")],
    };
    let raw = "方案 1：\n5 号选点：佣兵：回光返照、化险为夷\n2 号选点：古董商：回光返照、飞轮效应\n6 号选点：作曲家：回光返照、膝跳反射\n8 号选点：空军：回光返照、化险为夷\n描述：好。";
    let parsed = parse_and_validate(raw, &db, 12);
    match after_reply(raw, false, None, 0, parsed, 0) {
        ReplyAction::Accept { plans, .. } => assert_eq!(plans[0].selections[2].point, 6),
        _ => panic!("expected Accept"),
    }
}

#[test]
fn round_cast_from_stems() {
    let stems = vec!["Lawyer".to_string(), "nobody".to_string(), "doctor".to_string()];
    let (map, cast) = select_round(&db(), "ARMS-FACTORY", &stems).unwrap();
    assert_eq!(map.zh, "军工厂");
    let names: Vec<&str> = cast.iter().map(|e| e.zh.as_str()).collect();
    assert_eq!(names, vec!["律师", "医生"]);
    assert!(select_round(&db(), "lakeside-village", &stems).is_none());
}

#[test]
fn choosing_the_cast() {
    let mut chosen: Vec<String> = vec![];
    for s in ["a", "b", "c", "d", "e"] {
        toggle_survivor(&mut chosen, s);
        assert!(chosen.len() <= 4);
    }
    assert_eq!(chosen, vec!["a", "b", "c", "d"]);
    toggle_survivor(&mut chosen, "b");
    assert_eq!(chosen, vec!["a", "c", "d"]);
    toggle_survivor(&mut chosen, "x");
    toggle_survivor(&mut chosen, "x");
    assert_eq!(chosen, vec!["a", "c", "d"]);
}

#[test]
fn grid_slots() {
    assert_eq!(picker_slot(0, 0, 0), 0);
    assert_eq!(picker_slot(0, 2, 2), 8);
    assert_eq!(picker_slot(0, 0, 3), 9);
    assert_eq!(picker_slot(1, 1, 4), 18 + 9 + 3 + 1);
    assert_eq!(picker_slot(2, 2, 5), 36 + 9 + 6 + 2);
}

#[test]
fn clicking_maps() {
    let mut chosen = String::new();
    toggle_map(&mut chosen, "arms-factory");
    assert_eq!(chosen, "arms-factory");
    toggle_map(&mut chosen, "chinatown");
    assert_eq!(chosen, "chinatown");
    toggle_map(&mut chosen, "chinatown");
    assert_eq!(chosen, "");
}

#[test]
fn finished_round_record() {
    let stems: Vec<String> = vec!["DOCTOR".into(), "nobody".into(), "lawyer".into()];
    let u = Usage { prompt_tokens: 10, completion_tokens: 2 };
    let e = finish_round(&db(), "arms-factory", &stems, 2, " 稳 ", "", "方案 1：…", Some(u), true).unwrap();
    assert_eq!(e.index, 3);
    assert_eq!(e.map, "军工厂");
    assert_eq!(e.survivors, vec!["医生".to_string(), "律师".to_string()]);
    assert_eq!(e.round_req, "");
    assert_eq!(
        e.compact_request,
        "【第 3 局】\n地图：军工厂\n求生者：医生、律师\n全局需求：稳\n本局需求：（无）\n（该局地图与角色详细资料此处从略）"
    );
    assert_eq!(e.assistant_reply, "方案 1：…");
    assert!(!e.interrupted);
    assert_eq!(e.usage, Some(u));
    assert!(e.estimated);
    assert!(finish_round(&db(), "chinatown", &stems, 0, "", "", "", None, false).is_none());
}

#[test]
fn a_round_needs_a_known_map_and_four_survivors() {
    let four = ResourceDb {
        maps: vec![entry("军工厂", "arms-factory")],
        survivors: vec![
            entry("医生", "doctor"),
            entry("律师", "lawyer"),
            entry("慈善家", "thief"),
            entry("园丁", "gardener"),
        ],
    };
    let stems: Vec<String> = ["doctor", "lawyer", "thief", "Gardener"].iter().map(|s| s.to_string()).collect();
    let (map, cast) = prepare_round(&four, "arms-factory", &stems).unwrap();
    assert_eq!(map.zh, "军工厂");
    assert_eq!(cast.len(), 4);
    let three: Vec<String> = ["doctor", "lawyer", "nobody", "thief"].iter().map(|s| s.to_string()).collect();
    let e = prepare_round(&four, "arms-factory", &three).unwrap_err();
    assert_eq!(e, RoundError::WrongCast);
    assert_eq!(e.message(), "角色数量不为4");
    // the map is checked first
    let e = prepare_round(&four, "chinatown", &three).unwrap_err();
    assert_eq!(e, RoundError::NoMap);
    assert_eq!(e.message(), "未选择地图");
}
