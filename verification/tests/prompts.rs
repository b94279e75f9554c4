use mistake_agent::prompt::{
    agent_system_prompt, build_agent_system_prompt, check_agents_md, practice_check_system_prompt,
    practice_generate_system_prompt, session_title_prompt, summarize_prompt, AgentsMdError,
    AGENTS_MD_MAX_BYTES,
};

#[test]
fn english_mode_appends_immersion_rules_to_prompts() {
    assert!(build_agent_system_prompt(None, true).contains("English Immersion Mode"));
    assert!(!build_agent_system_prompt(None, false).contains("English Immersion Mode"));
    assert!(build_agent_system_prompt(None, false).contains("批改规则"));
    assert!(practice_check_system_prompt(true).contains("English Immersion Mode"));
    assert!(practice_generate_system_prompt(true).contains("English Immersion Mode"));
    assert!(summarize_prompt(true).contains("English Immersion Mode"));
    assert!(session_title_prompt(true).contains("English Immersion Mode"));
    assert!(!session_title_prompt(false).contains("English Immersion Mode"));
}

#[test]
fn system_prompt_appends_rules_and_falls_back() {
    let with_rules = build_agent_system_prompt(Some("多讲例题"), false);
    assert!(with_rules.contains("你是「错题 Agent」"));
    assert!(with_rules.contains("【教学规则（AGENTS.md"));
    assert!(with_rules.contains("多讲例题"));

    let without = build_agent_system_prompt(None, false);
    assert!(without.contains("你是「错题 Agent」"));
    assert!(!without.contains("【教学规则（AGENTS.md"));
    assert!(!without.contains("多讲例题"));
}

#[test]
fn english_persona_coexists_with_rules() {
    let prompt = build_agent_system_prompt(Some("多讲例题"), true);
    assert!(prompt.contains("多讲例题"));
    assert!(prompt.contains("English Immersion Mode"));
    assert!(prompt.contains("guide the student"));
}

#[test]
fn agent_system_prompt_rules_reason_labels() {
    assert_eq!(AgentsMdError::Missing.reason(), "missing");
    assert_eq!(AgentsMdError::TooLarge(1).reason(), "too_large");
    assert_eq!(AgentsMdError::InvalidUtf8.reason(), "invalid_utf8");
}

#[test]
fn agents_md_bytes_are_checked_in_order() {
    assert_eq!(check_agents_md(None), Err(AgentsMdError::Missing));
    assert_eq!(
        check_agents_md(Some(vec![b'x'; AGENTS_MD_MAX_BYTES + 1])),
        Err(AgentsMdError::TooLarge(AGENTS_MD_MAX_BYTES + 1))
    );
    assert_eq!(check_agents_md(Some(vec![0xff, 0xfe, 0x00, 0x41])), Err(AgentsMdError::InvalidUtf8));
    assert_eq!(
        check_agents_md(Some("家长自定义规则：多讲例题。".as_bytes().to_vec())).unwrap(),
        "家长自定义规则：多讲例题。"
    );
}

#[test]
fn agent_prompt_uses_rules_only_when_readable() {
    let with = agent_system_prompt(Some("多讲例题".as_bytes().to_vec()), false);
    assert!(with.contains("多讲例题"));
    let bad = agent_system_prompt(Some(vec![0xff]), false);
    assert_eq!(bad, build_agent_system_prompt(None, false));
    let none = agent_system_prompt(None, true);
    assert_eq!(none, build_agent_system_prompt(None, true));
}
