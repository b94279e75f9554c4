use mistake_agent::settings::{
    settings_from_env, EnvSettings, Level, ModelConfig, ModelConfigPatch, Settings, SettingsPatch,
    Transport,
};

fn sample() -> Settings {
    Settings {
        log_level: Level::Info,
        english_mode: false,
        main_model: ModelConfig {
            api_url: "https://api.deepseek.com".into(),
            api_key: "sk-secret-key".into(),
            model: Some("deepseek-v4-flash".into()),
            transport: Some(Transport::Responses),
        },
        vision_model: ModelConfig {
            api_url: "https://api.siliconflow.cn/v1".into(),
            api_key: "sk-vision-key".into(),
            model: Some("Qwen/Qwen3-VL-32B-Instruct".into()),
            transport: None,
        },
    }
}

fn empty_model_patch() -> ModelConfigPatch {
    ModelConfigPatch { api_url: None, api_key: None, model: None, transport: None }
}

fn empty_patch() -> SettingsPatch {
    SettingsPatch { log_level: None, english_mode: None, main_model: None, vision_model: None }
}

#[test]
fn public_view_never_leaks_api_key() {
    let view = sample().public_view();
    let text = format!("{view:?}");
    assert!(!text.contains("sk-secret-key"));
    assert!(!text.contains("sk-vision-key"));
    assert_eq!(view.english_mode, false);
    assert_eq!(view.main_model.key_set, true);
    assert_eq!(view.vision_model.key_set, true);
}

#[test]
fn patch_rejects_invalid_url_and_empty_model() {
    let mut settings = sample();
    let bad_url = SettingsPatch {
        main_model: Some(ModelConfigPatch { api_url: Some("ftp://bad".into()), ..empty_model_patch() }),
        ..empty_patch()
    };
    assert!(settings.apply_patch(&bad_url).is_err());

    let bad_model = SettingsPatch {
        vision_model: Some(ModelConfigPatch { model: Some("  ".into()), ..empty_model_patch() }),
        ..empty_patch()
    };
    assert!(settings.apply_patch(&bad_model).is_err());
}

#[test]
fn patch_applies_english_mode() {
    let mut settings = sample();
    let patch = SettingsPatch { english_mode: Some(true), ..empty_patch() };
    settings.apply_patch(&patch).unwrap();
    assert!(settings.english_mode);
    assert_eq!(settings.public_view().english_mode, true);
}

#[test]
fn patch_applies_url_model_and_key_keep_empty() {
    let mut settings = sample();
    let patch = SettingsPatch {
        main_model: Some(ModelConfigPatch {
            api_url: Some("https://api.example.com".into()),
            model: Some("deepseek-v4-pro".into()),
            api_key: Some("".into()),
            transport: Some(Transport::ChatCompletions),
        }),
        ..empty_patch()
    };
    settings.apply_patch(&patch).unwrap();
    assert_eq!(settings.main_model.api_url, "https://api.example.com");
    assert_eq!(settings.main_model.model.as_deref(), Some("deepseek-v4-pro"));
    assert_eq!(settings.main_model.api_key, "sk-secret-key");
    assert_eq!(settings.main_model.transport, Some(Transport::ChatCompletions));
}

#[test]
fn patch_error_messages_name_the_model() {
    let mut settings = sample();
    let bad_url = SettingsPatch {
        main_model: Some(ModelConfigPatch { api_url: Some(" ftp://x ".into()), ..empty_model_patch() }),
        ..empty_patch()
    };
    assert_eq!(settings.apply_patch(&bad_url), Err("main_model.api_url 必须是 http(s) 地址".to_string()));
    let bad_model = SettingsPatch {
        vision_model: Some(ModelConfigPatch { model: Some(" ".into()), ..empty_model_patch() }),
        ..empty_patch()
    };
    assert_eq!(settings.apply_patch(&bad_model), Err("vision_model.model 不能为空".to_string()));
}

#[test]
fn patch_trims_url_and_key() {
    let mut settings = sample();
    let patch = SettingsPatch {
        log_level: Some(Level::Debug),
        vision_model: Some(ModelConfigPatch {
            api_url: Some("  http://localhost:11434 ".into()),
            api_key: Some(" sk-new ".into()),
            ..empty_model_patch()
        }),
        ..empty_patch()
    };
    settings.apply_patch(&patch).unwrap();
    assert_eq!(settings.log_level, Level::Debug);
    assert_eq!(settings.vision_model.api_url, "http://localhost:11434");
    assert_eq!(settings.vision_model.api_key, "sk-new");
}

#[test]
fn settings_from_env_defaults_without_key() {
    let env = EnvSettings {
        main_key: None,
        main_url: Some("https://ignored".into()),
        vision_key: None,
        vision_url: None,
        vision_model: None,
        log_level: Some("debug".into()),
    };
    let s = settings_from_env(&env);
    assert_eq!(s.log_level, Level::Info);
    assert_eq!(s.main_model.api_url, "https://api.deepseek.com");
    assert_eq!(s.main_model.api_key, "");
    assert_eq!(s.main_model.model.as_deref(), Some("deepseek-v4-flash"));
    assert_eq!(s.vision_model.model.as_deref(), Some("Qwen/Qwen3-VL-32B-Instruct"));
}

#[test]
fn settings_from_env_uses_the_environment() {
    let env = EnvSettings {
        main_key: Some("k".into()),
        main_url: None,
        vision_key: Some("v".into()),
        vision_url: Some("https://vision".into()),
        vision_model: None,
        log_level: Some("warn".into()),
    };
    let s = settings_from_env(&env);
    assert_eq!(s.log_level, Level::Warn);
    assert_eq!(s.main_model.api_key, "k");
    assert_eq!(s.main_model.api_url, "https://api.deepseek.com");
    assert_eq!(s.main_model.model, None);
    assert_eq!(s.vision_model.api_url, "https://vision");
    assert_eq!(s.vision_model.api_key, "v");
}

#[test]
fn connection_test_uses_the_key_under_test() {
    let s = sample();
    let c = s.test_config(false, Some("  sk-new  "));
    assert_eq!(c.api_key, "sk-new");
    assert_eq!(c.api_url, "https://api.deepseek.com");
    assert_eq!(c.model.as_deref(), Some("deepseek-v4-flash"));
    assert_eq!(c.transport, Some(Transport::Responses));
    assert_eq!(s.test_config(false, Some("   ")).api_key, "sk-secret-key");
    let v = s.test_config(true, None);
    assert_eq!(v.api_key, "sk-vision-key");
    assert_eq!(v.api_url, "https://api.siliconflow.cn/v1");
    assert_eq!(v.transport, None);
}
