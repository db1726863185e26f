use idv_asas::config::{accepted_max_tokens, auth_header, endpoint_for, mask_key, max_tokens_from_form};

#[test]
fn endpoint_completion() {
    assert_eq!(endpoint_for("https://api.example.com/v1"), "https://api.example.com/v1/chat/completions");
    assert_eq!(endpoint_for(" https://api.example.com/v1/// "), "https://api.example.com/v1/chat/completions");
    assert_eq!(endpoint_for("https://x/v1/chat/completions/"), "https://x/v1/chat/completions");
    assert_eq!(endpoint_for(""), "/chat/completions");
}

#[test]
fn endpoint_of_an_endpoint_is_itself() {
    for base in ["https://a/b", " x /", "//", "", "https://x/v1/chat/completions"] {
        let e = endpoint_for(base);
        assert!(e.ends_with("/chat/completions"));
        assert_eq!(endpoint_for(&e), e);
    }
}

#[test]
fn key_masking() {
    assert_eq!(mask_key("   "), "");
    assert_eq!(mask_key("short"), "***");
    assert_eq!(mask_key("0123456789"), "***");
    assert_eq!(mask_key(" sk-abcdefghijkl "), "sk-a***ijkl");
    assert_eq!(mask_key("密钥一二三四五六七八九"), "密钥一二***六七八九");
}

#[test]
fn token_limit_from_form() {
    assert_eq!(max_tokens_from_form(""), None);
    assert_eq!(max_tokens_from_form(" 2048 "), Some(2048));
    assert_eq!(max_tokens_from_form("+7"), Some(7));
    assert_eq!(max_tokens_from_form("0"), None);
    assert_eq!(max_tokens_from_form("-3"), None);
    assert_eq!(max_tokens_from_form("4294967296"), None);
    assert_eq!(max_tokens_from_form("4294967295"), Some(4294967295));
    assert_eq!(accepted_max_tokens(Some(0)), None);
    assert_eq!(accepted_max_tokens(Some(5)), Some(5));
    assert_eq!(accepted_max_tokens(None), None);
}

#[test]
fn authorization_header() {
    assert_eq!(auth_header(""), None);
    assert_eq!(auth_header(" \t "), None);
    assert_eq!(auth_header(" sk-123 ").as_deref(), Some("Bearer sk-123"));
}
