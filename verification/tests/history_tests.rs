use idv_asas::api::Usage;
use idv_asas::history::{import_head, path_for, resume_head, sort_newest_first, token_totals, SessionHead};

#[test]
fn session_paths() {
    assert_eq!(path_for("history", "my session.json", "20240101-000000"), "history/my-session.json");
    assert_eq!(path_for("history/", " a/b:c*?.json.json ", "t"), "history/abc.json");
    assert_eq!(path_for("history", "..", "20240101-120000"), "history/20240101-120000.json");
    assert_eq!(path_for("", ".hidden.", "t"), "hidden.json");
    assert_eq!(path_for("h", "\"<|>\"", "t"), "h/t.json");
}

#[test]
fn newest_sessions_first() {
    let names = vec!["20240101-000000.json", "20250301-101010.json", "abc.json", "20240101-000000.json"]
        .into_iter()
        .map(String::from)
        .collect();
    assert_eq!(
        sort_newest_first(names),
        vec!["abc.json", "20250301-101010.json", "20240101-000000.json", "20240101-000000.json"]
    );
}

#[test]
fn token_totals_of_rounds() {
    let us = vec![
        Some(Usage { prompt_tokens: 100, completion_tokens: 10 }),
        None,
        Some(Usage { prompt_tokens: 5, completion_tokens: 1 }),
    ];
    assert_eq!(token_totals(&us), (105, 11));
    assert_eq!(token_totals(&vec![]), (0, 0));
}

#[test]
fn resumed_session_head() {
    let current = SessionHead {
        version: 1,
        created_at_unix: 100,
        base_url: "old".into(),
        model: "m0".into(),
        global_req: "".into(),
    };
    let saved = SessionHead {
        version: 7,
        created_at_unix: 5,
        base_url: "saved-url".into(),
        model: "saved-model".into(),
        global_req: "稳一点".into(),
    };
    let h = resume_head(&current, "https://api", "gpt", &saved);
    assert_eq!((h.version, h.created_at_unix), (1, 100));
    assert_eq!(h.base_url, "https://api");
    assert_eq!(h.model, "gpt");
    assert_eq!(h.global_req, "稳一点");
}

#[test]
fn imported_session_head() {
    let saved = SessionHead {
        version: 7,
        created_at_unix: 5,
        base_url: "saved-url".into(),
        model: "saved-model".into(),
        global_req: "稳一点".into(),
    };
    let h = import_head(&saved, "https://api", "gpt");
    assert_eq!((h.version, h.created_at_unix), (7, 5));
    assert_eq!(h.base_url, "https://api");
    assert_eq!(h.model, "gpt");
    assert_eq!(h.global_req, "稳一点");
}
