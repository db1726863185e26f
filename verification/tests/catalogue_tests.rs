use idv_asas::checker::{
    entry_for, entry_from, find_by_lower_stem, is_entry_file_v, scan, DbError, ResourceDb, SourceFile,
};
use idv_asas::session::entries_for_stems;

fn file(stem: &str, ext: Option<&str>, text: &str) -> SourceFile {
    SourceFile {
        stem: stem.to_string(),
        extension: ext.map(|e| e.to_string()),
        text: text.to_string(),
        path: format!("res/{stem}.md"),
    }
}

#[test]
fn scan_keeps_markdown_entries_sorted_by_name() {
    let files = vec![
        file("Mercenary", Some("md"), "# 佣兵\n资料"),
        file("README", Some("md"), "# 说明"),
        file("doctor", Some("md"), "## 医生\r\n"),
        file("notes", Some("txt"), "# 备注"),
        file("lawyer", Some("md"), ""),
        file("ReadMe", Some("md"), "x"),
    ];
    let es = scan(&files);
    let names: Vec<&str> = es.iter().map(|e| e.zh.as_str()).collect();
    assert_eq!(names, vec!["lawyer", "佣兵", "医生"]);
    assert_eq!(es[1].stem, "mercenary");
    assert_eq!(es[1].path, "res/Mercenary.md");
    for w in es.windows(2) {
        assert!(w[0].zh <= w[1].zh);
    }
}

#[test]
fn load_requires_maps_and_survivors() {
    let maps = vec![file("arms-factory", Some("md"), "# 军工厂")];
    let chars = vec![file("doctor", Some("md"), "# 医生"), file("lawyer", Some("md"), "# 律师")];
    let db = ResourceDb::load(&maps, &chars).ok().unwrap();
    assert_eq!(db.maps_hint(), "军工厂");
    assert_eq!(db.survivors_hint(), "医生、律师");
    assert!(matches!(ResourceDb::load(&maps, &vec![]), Err(DbError::MissingData)));
    assert!(matches!(ResourceDb::load(&vec![], &chars), Err(DbError::MissingData)));
}

#[test]
fn lookups_prefer_display_names() {
    let maps = vec![file("arms-factory", Some("md"), "# 军工厂")];
    let chars = vec![file("doctor", Some("md"), "# 医生"), file("Lawyer", Some("md"), "# doctor")];
    let db = ResourceDb::load(&maps, &chars).ok().unwrap();
    // "doctor" is the display name of the lawyer, before it is the stem of the doctor
    assert_eq!(db.find_character(" doctor ").unwrap().stem, "lawyer");
    assert_eq!(db.find_character("DOCTOR").unwrap().zh, "医生");
    assert!(db.find_character("   ").is_none());
    assert_eq!(db.find_map("Arms-Factory").unwrap().zh, "军工厂");
    assert!(db.find_map("湖景村").is_none());
    assert_eq!(db.find_char_by_stem("LAWYER").unwrap().zh, "doctor");
    assert!(db.find_char_by_stem(" lawyer").is_none());
    assert_eq!(db.find_map_by_stem("arms-factory").unwrap().zh, "军工厂");
    assert_eq!(db.find_entry_by_stem("doctor").unwrap().zh, "医生");
    assert_eq!(db.find_entry_by_stem("ARMS-FACTORY").unwrap().zh, "军工厂");
    assert!(db.find_entry_by_stem("nobody").is_none());
}

#[test]
fn entries_in_a_given_order() {
    let maps = vec![
        file("lakeside-village", Some("md"), "# 湖景村"),
        file("arms-factory", Some("md"), "# 军工厂"),
    ];
    let chars = vec![file("doctor", Some("md"), "# 医生")];
    let db = ResourceDb::load(&maps, &chars).ok().unwrap();
    let order: Vec<String> =
        ["arms-factory", "the-red-church", "lakeside-village"].iter().map(|s| s.to_string()).collect();
    let es = entries_for_stems(&db.maps, &order);
    let names: Vec<&str> = es.iter().map(|e| e.zh.as_str()).collect();
    assert_eq!(names, vec!["军工厂", "湖景村"]);
    assert!(entries_for_stems(&db.survivors, &order).is_empty());
}

#[test]
fn entry_files_and_their_entries() {
    assert!(is_entry_file_v(&file("Doctor", Some("md"), "")));
    assert!(!is_entry_file_v(&file("README", Some("md"), "")));
    assert!(!is_entry_file_v(&file("rEaDmE", Some("md"), "")));
    assert!(!is_entry_file_v(&file("doctor", Some("MD"), "")));
    assert!(!is_entry_file_v(&file("doctor", None, "")));
    let f = file("Doctor", Some("md"), "#  医生 \n更多");
    let e = entry_from(&f, "given".to_string());
    assert_eq!(e.zh, "医生");
    assert_eq!(e.stem, "given");
    assert_eq!(e.path, "res/Doctor.md");
    let e = entry_for(&f).unwrap();
    assert_eq!(e.stem, "doctor");
    assert!(entry_for(&file("readme", Some("md"), "# x")).is_none());
}

#[test]
fn lookup_by_a_lower_case_stem() {
    let chars = vec![file("Doctor", Some("md"), "# 医生"), file("lawyer", Some("md"), "# 律师")];
    let es = scan(&chars);
    assert_eq!(find_by_lower_stem(&es, &"doctor".to_string()).unwrap().zh, "医生");
    assert!(find_by_lower_stem(&es, &"Doctor".to_string()).is_none());
}
