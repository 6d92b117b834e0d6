use yunzhi::config::{
    check_loaded_config, config_dir, config_from_input, config_path, global_profiles_path,
    load_profile, lookup_profile, masked_key, memory_path, project_profiles_path,
    AgentMode, AppConfig, ProfileConfig, ProfilesFile,
};

#[test]
fn masks_key() {
    assert_eq!(masked_key("sk-1234567890"), "sk-1****7890");
    assert_eq!(masked_key("short"), "****");
}

#[test]
fn masks_key_edges() {
    assert_eq!(masked_key(""), "****");
    assert_eq!(masked_key("12345678"), "****");
    assert_eq!(masked_key("123456789"), "1234****6789");
    assert_eq!(masked_key("密钥一二三四五六七八"), "密钥一二****五六七八");
}

#[test]
fn joins_paths() {
    let sep = std::path::MAIN_SEPARATOR;
    assert_eq!(config_dir("/home/u"), format!("/home/u{}.yunzhi", sep));
    assert_eq!(config_dir("/home/u/"), "/home/u/.yunzhi");
    assert_eq!(config_dir(""), ".yunzhi");
}

#[test]
fn config_paths() {
    let s = std::path::MAIN_SEPARATOR;
    assert_eq!(config_path("/home/u"), format!("/home/u{s}.yunzhi{s}config.toml"));
    assert_eq!(global_profiles_path("/home/u"), format!("/home/u{s}.yunzhi{s}profiles.toml"));
    assert_eq!(project_profiles_path("/work/p"), format!("/work/p{s}.yunzhi{s}profiles.toml"));
    assert_eq!(memory_path("/work/p"), format!("/work/p{s}.yunzhi{s}memory.md"));
}

#[test]
fn blank_api_key_is_no_config() {
    let blank = AppConfig { api_key: "  \t".to_string(), model: None };
    assert_eq!(check_loaded_config(blank), None);
    let good = AppConfig { api_key: "sk-test".to_string(), model: Some("m".to_string()) };
    assert_eq!(check_loaded_config(good.clone()), Some(good));
}

#[test]
fn typed_api_key() {
    assert_eq!(config_from_input("   \n", "model-x"), None);
    assert_eq!(
        config_from_input("  sk-abc \n", "model-x"),
        Some(AppConfig { api_key: "sk-abc".to_string(), model: Some("model-x".to_string()) })
    );
}

fn profile(persona: &str) -> ProfileConfig {
    ProfileConfig {
        persona: Some(persona.to_string()),
        mode: Some(AgentMode::Agent),
        model: Some("custom-model".to_string()),
        max_tokens: Some(2048),
        tools: Some(vec!["read_file".to_string(), "test_loop".to_string()]),
    }
}

#[test]
fn picks_project_profile() {
    let project = ProfilesFile { profiles: vec![("rust".to_string(), profile("Rust mentor"))] };
    let found = load_profile(Some(&project), None, "rust").unwrap();
    assert_eq!(found.persona.as_deref(), Some("Rust mentor"));
    assert_eq!(found.mode, Some(AgentMode::Agent));
    assert_eq!(found.model.as_deref(), Some("custom-model"));
    assert_eq!(found.max_tokens, Some(2048));
    assert_eq!(found.tools.unwrap(), vec!["read_file", "test_loop"]);
}

#[test]
fn project_profile_wins_over_global() {
    let project = ProfilesFile { profiles: vec![("rust".to_string(), profile("project"))] };
    let global = ProfilesFile {
        profiles: vec![
            ("rust".to_string(), profile("global")),
            ("docs".to_string(), profile("writer")),
        ],
    };
    assert_eq!(load_profile(Some(&project), Some(&global), "rust").unwrap().persona.as_deref(), Some("project"));
    assert_eq!(load_profile(Some(&project), Some(&global), "docs").unwrap().persona.as_deref(), Some("writer"));
    assert_eq!(load_profile(None, Some(&global), "rust").unwrap().persona.as_deref(), Some("global"));
    assert_eq!(load_profile(Some(&project), Some(&global), "none"), None);
    assert_eq!(load_profile(None, None, "rust"), None);
    assert_eq!(lookup_profile(&global, "docs"), Some(profile("writer")));
}

#[test]
fn unique_names_find_the_one_profile() {
    let file = ProfilesFile {
        profiles: vec![("a".to_string(), profile("first")), ("b".to_string(), profile("second"))],
    };
    assert_eq!(lookup_profile(&file, "b").unwrap().persona.as_deref(), Some("second"));
    assert_eq!(lookup_profile(&file, "c"), None);
}
