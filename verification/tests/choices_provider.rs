use herdr::choices::PluginActionChoicesParseError;
use herdr::choices_provider::{
    cancellation_message, plugin_command_env, provider_step, provider_verdict, spawn_failure_message,
    timeout_message, wait_failure_message, ExitReport, PluginInvocationContext, ProviderStep,
    ProviderWait,
};

#[test]
fn polls_wait_until_exit_cancellation_or_deadline() {
    assert_eq!(provider_step(ProviderWait::Exited, true, false), ProviderStep::Collect);
    assert_eq!(provider_step(ProviderWait::Running, false, true), ProviderStep::Sleep);
    assert_eq!(provider_step(ProviderWait::Running, true, true), ProviderStep::Cancel);
    assert_eq!(provider_step(ProviderWait::Running, false, false), ProviderStep::TimeOut);
    assert_eq!(provider_step(ProviderWait::Failed, false, true), ProviderStep::Abandon);
}

#[test]
fn run_messages_name_what_went_wrong() {
    assert_eq!(cancellation_message(None), "choices provider cancelled");
    assert_eq!(
        cancellation_message(Some("denied".into())),
        "choices provider cancellation failed: denied"
    );
    assert_eq!(timeout_message(None), "choices provider timed out after 2 seconds");
    assert_eq!(
        timeout_message(Some("gone".into())),
        "choices provider timed out after 2 seconds; process-tree termination failed: gone"
    );
    assert_eq!(wait_failure_message("eio"), "failed waiting for choices provider: eio");
    assert_eq!(spawn_failure_message("enoent"), "failed to spawn choices provider: enoent");
}

#[test]
fn verdict_checks_error_then_exit_then_size() {
    let ok = Some(ExitReport { success: true, code: Some(0) });
    assert_eq!(provider_verdict(None, ok, false), Ok(()));
    assert_eq!(provider_verdict(Some("stopped".into()), ok, true), Err("stopped".to_string()));
    assert_eq!(
        provider_verdict(None, Some(ExitReport { success: false, code: Some(3) }), false),
        Err("choices provider exited with status 3".to_string())
    );
    assert_eq!(
        provider_verdict(None, Some(ExitReport { success: false, code: Some(-2) }), false),
        Err("choices provider exited with status -2".to_string())
    );
    assert_eq!(
        provider_verdict(None, Some(ExitReport { success: false, code: None }), false),
        Err("choices provider terminated without an exit code".to_string())
    );
    assert_eq!(
        provider_verdict(None, None, false),
        Err("choices provider terminated without an exit code".to_string())
    );
    assert_eq!(
        provider_verdict(None, ok, true),
        Err("choices output exceeds 64 KiB".to_string())
    );
}

#[test]
fn choices_errors_render_their_messages() {
    assert_eq!(
        PluginActionChoicesParseError::UnsupportedVersion(2).to_string(),
        "unsupported choices output version 2"
    );
    assert_eq!(
        PluginActionChoicesParseError::DuplicateId("a".into()).to_string(),
        "duplicate choice id 'a'"
    );
    assert_eq!(
        PluginActionChoicesParseError::InvalidJson("eof".into()).to_string(),
        "invalid choices JSON: eof"
    );
    assert_eq!(
        PluginActionChoicesParseError::PayloadTooDeep.to_string(),
        "choice payload exceeds JSON depth 16"
    );
}

#[test]
fn plugin_environment_lists_present_details_in_order() {
    let context = PluginInvocationContext {
        workspace_id: Some("w1".into()),
        focused_pane_id: Some("w1:p2".into()),
        ..PluginInvocationContext::default()
    };
    let env = plugin_command_env(
        vec![("PATH".into(), "/plugin/bin".into())],
        "/tmp/herdr.sock",
        "demo",
        "{}",
        None,
        &context,
        Some("open"),
        None,
        None,
        Some("{\"id\":\"x\"}"),
    );
    let keys: Vec<&str> = env.iter().map(|(key, _)| key.as_str()).collect();
    assert_eq!(
        keys,
        vec![
            "PATH",
            "HERDR_SOCKET_PATH",
            "HERDR_ENV",
            "HERDR_PLUGIN_ID",
            "HERDR_PLUGIN_CONTEXT_JSON",
            "HERDR_PLUGIN_ACTION_ID",
            "HERDR_WORKSPACE_ID",
            "HERDR_PANE_ID",
            "HERDR_PLUGIN_ACTION_CHOICE_JSON",
        ]
    );
    assert_eq!(env[1].1, "/tmp/herdr.sock");
    assert_eq!(env[2].1, "1");
    assert_eq!(env[7].1, "w1:p2");
}
