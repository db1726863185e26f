use idv_asas::api::{event_line, http_error_message, should_retry_without_usage, truncate_chars, StreamState, StreamStep, Usage};

#[test]
fn truncation_of_characters() {
    assert_eq!(truncate_chars("短", 3), "短");
    assert_eq!(truncate_chars("一二三四", 3), "一二三…");
    assert_eq!(truncate_chars("abc", 3), "abc");
}

#[test]
fn usage_total() {
    let u = Usage { prompt_tokens: 120, completion_tokens: 30 };
    assert_eq!(u.total(), 150);
}

#[test]
fn stream_lines_build_the_reply() {
    let mut st = StreamState::new();
    assert_eq!(st.on_line(": keep-alive", false), StreamStep::Continue);
    assert_eq!(st.on_line("data: {\"choices\":[{\"delta\":{\"content\":\"方案\"}}]}", false), StreamStep::Continue);
    assert_eq!(st.content, "方案");
    assert!(st.got_first);
    assert_eq!(st.on_line("data: {\"choices\":[{\"delta\":{\"content\":\"\"}}]}", false), StreamStep::Continue);
    assert_eq!(st.on_line("data: not json", false), StreamStep::Continue);
    assert_eq!(st.on_line("data:{\"choices\":[{\"delta\":{\"content\":\" 1\"}}],\"usage\":null}", false), StreamStep::Continue);
    assert_eq!(st.content, "方案 1");
    assert_eq!(st.usage, None);
    assert_eq!(st.on_line("data: {\"choices\":[],\"usage\":{\"prompt_tokens\":12,\"completion_tokens\":\"x\"}}", false), StreamStep::Continue);
    assert_eq!(st.usage, Some(Usage { prompt_tokens: 12, completion_tokens: 0 }));
    assert_eq!(st.on_line("data:  [DONE] ", false), StreamStep::Stop);
    assert!(!st.interrupted);
}

#[test]
fn interruption_and_timeout() {
    let mut st = StreamState::new();
    assert_eq!(st.on_quiet(false, 120_000_000_000), StreamStep::Continue);
    assert_eq!(st.on_quiet(false, 120_000_000_001), StreamStep::TimedOut);
    st.on_line("data: {\"choices\":[{\"delta\":{\"content\":\"x\"}}]}", false);
    assert_eq!(st.on_quiet(false, 500_000_000_000), StreamStep::Continue);
    assert_eq!(st.on_line("data: {\"choices\":[{\"delta\":{\"content\":\"y\"}}]}", true), StreamStep::Stop);
    assert!(st.interrupted);
    assert_eq!(st.content, "x");
    let mut st2 = StreamState::new();
    assert_eq!(st2.on_quiet(true, 0), StreamStep::Stop);
    assert!(st2.interrupted);
}

#[test]
fn error_messages_of_calls() {
    let body = "e".repeat(700);
    let m = http_error_message("404 Not Found", &body);
    assert_eq!(m, format!("接口返回错误 HTTP 404 Not Found：{}…", "e".repeat(600)));
    assert!(should_retry_without_usage("Unrecognized request argument supplied: stream_options"));
    assert!(!should_retry_without_usage("timeout"));
}

#[test]
fn event_lines_lose_their_endings() {
    assert_eq!(event_line("data: x\r\n"), "data: x");
    assert_eq!(event_line("data: x\n\r\n"), "data: x");
    assert_eq!(event_line(" data \n"), " data ");
    assert_eq!(event_line("\n"), "");
}
