use herdr::command_log::{
    admit_choices_provider, admit_plugin_command, plugin_log_id, CommandLog,
    PluginCommandRefusal, ProviderAdmissionError, MAX_PLUGIN_ACTION_CHOICES_PROVIDERS_IN_FLIGHT,
    MAX_PLUGIN_COMMANDS_IN_FLIGHT, PLUGIN_COMMAND_LOG_LIMIT,
};

fn command() -> Vec<String> {
    vec!["sh".into(), "-c".into(), "exit 0".into()]
}

#[test]
fn the_command_log_keeps_the_newest_entries() {
    let mut log = CommandLog::new();
    for index in 0..PLUGIN_COMMAND_LOG_LIMIT + 5 {
        log.push(index);
    }
    assert_eq!(log.entries().len(), PLUGIN_COMMAND_LOG_LIMIT);
    assert_eq!(log.entries().first(), Some(&5));
    assert_eq!(log.entries().last(), Some(&(PLUGIN_COMMAND_LOG_LIMIT + 4)));
}

#[test]
fn plugin_commands_beyond_the_limit_are_refused() {
    assert_eq!(admit_plugin_command(MAX_PLUGIN_COMMANDS_IN_FLIGHT - 1, &command()), Ok(()));
    let refused = admit_plugin_command(MAX_PLUGIN_COMMANDS_IN_FLIGHT, &command()).unwrap_err();
    assert_eq!(refused, PluginCommandRefusal::LimitReached);
    assert_eq!(refused.code(), "plugin_command_limit_reached");
    assert_eq!(refused.message(), "maximum concurrent plugin commands reached (32)");
    let empty = admit_plugin_command(0, &[]).unwrap_err();
    assert_eq!(empty, PluginCommandRefusal::EmptyCommand);
    assert_eq!(empty.code(), "invalid_plugin_command");
    assert_eq!(empty.message(), "command must not be empty");
    assert_eq!(plugin_log_id(7), "plugin-log-7");
}

#[test]
fn provider_admission_is_dedicated_and_bounded_to_four() {
    // Ordinary plugin commands at their limit do not count against providers.
    assert!(admit_plugin_command(MAX_PLUGIN_COMMANDS_IN_FLIGHT, &command()).is_err());
    let mut in_flight: Vec<String> = Vec::new();
    for index in 0..MAX_PLUGIN_ACTION_CHOICES_PROVIDERS_IN_FLIGHT {
        let request = format!("request-{index}");
        assert_eq!(admit_choices_provider(&request, &in_flight, &command()), Ok(()));
        in_flight.push(request);
    }
    let rejected = admit_choices_provider("rejected", &in_flight, &command()).unwrap_err();
    assert_eq!(rejected, ProviderAdmissionError::LimitReached);
    assert_eq!(rejected.code(), "plugin_action_choices_provider_limit_reached");
    assert_eq!(
        rejected.message(),
        "maximum concurrent plugin action choices providers reached (4)"
    );
    let duplicate = admit_choices_provider("request-1", &in_flight[..1], &command());
    assert_eq!(duplicate, Ok(()));
    let duplicate = admit_choices_provider("request-0", &in_flight, &command()).unwrap_err();
    assert_eq!(duplicate, ProviderAdmissionError::DuplicateRequest);
    assert_eq!(duplicate.code(), "duplicate_plugin_action_choices_request");
    assert_eq!(duplicate.message(), "choices provider request identity is already in flight");
    let empty = admit_choices_provider("x", &[], &[]).unwrap_err();
    assert_eq!(empty.code(), "invalid_plugin_command");
    assert_eq!(empty.message(), "choices command must not be empty");
}
