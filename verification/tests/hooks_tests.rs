use yunzhi::hooks::{
    check_hook_run, default_timeout_secs, format_hook_runs, hook_env, hook_event_name,
    hook_matches_tool, hook_timeout_message, hook_timeout_secs, matching_hooks, HookConfig,
    HookEvent, HookRule, HookRun,
};

fn rule(event: HookEvent, tools: &[&str], command: &str, timeout: u64) -> HookRule {
    HookRule {
        event,
        tools: tools.iter().map(|t| t.to_string()).collect(),
        command: command.to_string(),
        timeout,
    }
}

fn run(command: &str, stdout: &str, stderr: &str) -> HookRun {
    HookRun {
        command: command.to_string(),
        status: "exit status: 0".to_string(),
        stdout: stdout.to_string(),
        stderr: stderr.to_string(),
        elapsed_ms: 12,
    }
}

#[test]
fn default_timeout_is_thirty_seconds() {
    assert_eq!(default_timeout_secs(), 30);
}

#[test]
fn timeouts_are_held_in_range() {
    assert_eq!(hook_timeout_secs(&rule(HookEvent::PreTool, &[], "x", 0)), 1);
    assert_eq!(hook_timeout_secs(&rule(HookEvent::PreTool, &[], "x", 45)), 45);
    assert_eq!(hook_timeout_secs(&rule(HookEvent::PreTool, &[], "x", 601)), 600);
}

#[test]
fn matches_tools() {
    assert!(hook_matches_tool(&rule(HookEvent::PreTool, &[], "x", 1), "write_file"));
    assert!(hook_matches_tool(&rule(HookEvent::PreTool, &["*"], "x", 1), "write_file"));
    assert!(hook_matches_tool(&rule(HookEvent::PreTool, &["read_file", "write_file"], "x", 1), "write_file"));
    assert!(!hook_matches_tool(&rule(HookEvent::PreTool, &["read_file"], "x", 1), "write_file"));
}

#[test]
fn selects_matching_hooks() {
    let config = HookConfig {
        hooks: vec![
            rule(HookEvent::PostTool, &["write_file"], "printf $YUNZHI_TOOL_NAME > hook.out", 30),
            rule(HookEvent::PreTool, &["write_file"], "pre", 30),
            rule(HookEvent::PostTool, &["read_file"], "other", 30),
            rule(HookEvent::PostTool, &[], "all", 30),
        ],
    };
    let found: Vec<&str> = matching_hooks(&config, HookEvent::PostTool, "write_file")
        .iter()
        .map(|h| h.command.as_str())
        .collect();
    assert_eq!(found, vec!["printf $YUNZHI_TOOL_NAME > hook.out", "all"]);
}

#[test]
fn names_events_and_environment() {
    assert_eq!(hook_event_name(HookEvent::PreTool), "PreTool");
    assert_eq!(hook_event_name(HookEvent::PostTool), "PostTool");
    let env = hook_env(HookEvent::PostTool, "write_file", "{\"path\":\"a.txt\"}", Some("ok"));
    let expected = vec![
        ("YUNZHI_HOOK_EVENT".to_string(), "PostTool".to_string()),
        ("YUNZHI_TOOL_NAME".to_string(), "write_file".to_string()),
        ("YUNZHI_TOOL_INPUT".to_string(), "{\"path\":\"a.txt\"}".to_string()),
        ("YUNZHI_TOOL_OUTPUT".to_string(), "ok".to_string()),
    ];
    assert_eq!(env, expected);
    assert_eq!(hook_env(HookEvent::PreTool, "t", "{}", None).len(), 3);
}

#[test]
fn formats_no_runs_as_nothing() {
    assert_eq!(format_hook_runs(&[]), "");
}

#[test]
fn formats_runs() {
    let runs = vec![run("make", "built\nok\n", "  "), run("lint", "", "warn: x")];
    assert_eq!(
        format_hook_runs(&runs),
        "hooks:\n- command: make\n  status: exit status: 0\n  elapsed_ms: 12\n  stdout:\n    built\n    ok\n- command: lint\n  status: exit status: 0\n  elapsed_ms: 12\n  stderr:\n    warn: x"
    );
}

#[test]
fn formats_at_most_forty_lines() {
    let out: String = (0..50).map(|i| format!("line {}\n", i)).collect();
    let report = format_hook_runs(&[run("c", &out, "")]);
    assert!(report.contains("    line 39"));
    assert!(!report.contains("line 40"));
}

#[test]
fn failed_run_is_an_error() {
    let ok = check_hook_run(run("a", "", ""), true);
    assert_eq!(ok, Ok(run("a", "", "")));
    let err = check_hook_run(run("a", "", ""), false);
    assert_eq!(
        err,
        Err("Hook 执行失败:\nhooks:\n- command: a\n  status: exit status: 0\n  elapsed_ms: 12".to_string())
    );
    assert_eq!(hook_timeout_message(&rule(HookEvent::PreTool, &[], "sleep 9", 1)), "Hook 超时: sleep 9");
}

#[test]
fn hook_config_location() {
    let s = std::path::MAIN_SEPARATOR;
    assert_eq!(yunzhi::hooks::hook_config_path("/work/p"), format!("/work/p{s}.yunzhi/hooks.toml"));
}
