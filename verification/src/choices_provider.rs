//! The decisions around running a plugin's choices provider: the
//! environment it is started with, what to do after each poll of the
//! running process, and what a finished run comes to.

use vstd::prelude::*;
use crate::choices::{PluginActionChoicesParseError, parse_error_text};
use crate::text::{concat, decimal, u64_to_decimal};

verus! {

/// Bytes of a provider's stdout that are kept.
pub const PLUGIN_COMMAND_OUTPUT_MAX_BYTES: usize = 65536;
/// Bytes of a provider's stderr that are kept.
pub const PLUGIN_CHOICES_STDERR_MAX_BYTES: usize = 16384;
/// How long a provider may run, in milliseconds.
pub const PLUGIN_CHOICES_TIMEOUT_MS: u64 = 2000;

/// What waiting on the provider process reported.
#[derive(Debug, Clone, Copy, PartialEq, Eq, Structural)]
pub enum ProviderWait {
    /// The process has exited.
    Exited,
    /// The process is still running.
    Running,
    /// Waiting on the process failed.
    Failed,
}

/// What to do after a poll of the provider process.
#[derive(Debug, Clone, Copy, PartialEq, Eq, Structural)]
pub enum ProviderStep {
    /// Terminate what is left of the process tree, drain the output and finish.
    Collect,
    /// Sleep briefly and poll again.
    Sleep,
    /// Terminate the process tree because the request was cancelled.
    Cancel,
    /// Terminate the process tree because the deadline passed.
    TimeOut,
    /// Terminate the process tree and give up waiting.
    Abandon,
}

/// The step after a poll: an exit is collected, a failed wait abandoned, and
/// a running process waited for until it is cancelled or its time runs out.
pub fn provider_step(wait: ProviderWait, cancelled: bool, before_deadline: bool) -> (r: ProviderStep)
    ensures
        r == match wait {
            ProviderWait::Exited => ProviderStep::Collect,
            ProviderWait::Failed => ProviderStep::Abandon,
            ProviderWait::Running => if cancelled {
                ProviderStep::Cancel
            } else if before_deadline {
                ProviderStep::Sleep
            } else {
                ProviderStep::TimeOut
            },
        },
{
    match wait {
        ProviderWait::Exited => ProviderStep::Collect,
        ProviderWait::Failed => ProviderStep::Abandon,
        ProviderWait::Running => if cancelled {
            ProviderStep::Cancel
        } else if before_deadline {
            ProviderStep::Sleep
        } else {
            ProviderStep::TimeOut
        },
    }
}

/// Why a cancelled run ended, given the error of terminating its process tree.
pub open spec fn cancellation_text(termination_error: Option<Seq<char>>) -> Seq<char> {
    match termination_error {
        None => "choices provider cancelled"@,
        Some(e) => "choices provider cancellation failed: "@ + e,
    }
}

pub fn cancellation_message(termination_error: Option<String>) -> (r: String)
    ensures
        r@ == cancellation_text(crate::text::opt_view(termination_error)),
{
    match termination_error {
        None => String::from_str("choices provider cancelled"),
        Some(e) => concat("choices provider cancellation failed: ", e.as_str()),
    }
}

/// Why a run that overran its time ended, given the error of terminating
/// its process tree.
pub open spec fn timeout_text(termination_error: Option<Seq<char>>) -> Seq<char> {
    match termination_error {
        None => "choices provider timed out after 2 seconds"@,
        Some(e) => "choices provider timed out after 2 seconds; process-tree termination failed: "@ + e,
    }
}

pub fn timeout_message(termination_error: Option<String>) -> (r: String)
    ensures
        r@ == timeout_text(crate::text::opt_view(termination_error)),
{
    match termination_error {
        None => String::from_str("choices provider timed out after 2 seconds"),
        Some(e) => concat("choices provider timed out after 2 seconds; process-tree termination failed: ", e.as_str()),
    }
}

/// Why a run ended whose process could not be waited on.
pub fn wait_failure_message(error: &str) -> (r: String)
    ensures
        r@ == "failed waiting for choices provider: "@ + error@,
{
    concat("failed waiting for choices provider: ", error)
}

/// Why a run ended whose process could not be started.
pub fn spawn_failure_message(error: &str) -> (r: String)
    ensures
        r@ == "failed to spawn choices provider: "@ + error@,
{
    concat("failed to spawn choices provider: ", error)
}

/// How the provider process exited.
#[derive(Debug, Clone, Copy, PartialEq, Eq, Structural)]
pub struct ExitReport {
    pub success: bool,
    /// The exit code, absent when a signal ended the process.
    pub code: Option<i32>,
}

/// The decimal rendering of an integer, with a minus sign when negative.
pub open spec fn int_text(n: int) -> Seq<char> {
    if n < 0 {
        "-"@ + decimal((-n) as nat)
    } else {
        decimal(n as nat)
    }
}

fn i32_text(n: i32) -> (r: String)
    ensures
        r@ == int_text(n as int),
{
    if n < 0 {
        let magnitude: i64 = -(n as i64);
        let digits = u64_to_decimal(magnitude as u64);
        concat("-", digits.as_str())
    } else {
        u64_to_decimal(n as u64)
    }
}

/// What a finished run comes to before its output is read: the error that
/// ended the run, else a failed exit, else an output that overflowed; `Ok`
/// when the output is to be parsed as a choices document.
pub open spec fn run_verdict(execution_error: Option<Seq<char>>, status: Option<ExitReport>, stdout_truncated: bool) -> Result<(), Seq<char>> {
    match execution_error {
        Some(e) => Err(e),
        None => if !(status matches Some(s) && s.success) {
            match status {
                Some(ExitReport { code: Some(c), .. }) => Err("choices provider exited with status "@ + int_text(c as int)),
                _ => Err("choices provider terminated without an exit code"@),
            }
        } else if stdout_truncated {
            Err(parse_error_text(PluginActionChoicesParseError::OutputTooLarge))
        } else {
            Ok(())
        },
    }
}

pub fn provider_verdict(execution_error: Option<String>, status: Option<ExitReport>, stdout_truncated: bool) -> (r: Result<(), String>)
    ensures
        match run_verdict(crate::text::opt_view(execution_error), status, stdout_truncated) {
            Ok(()) => r is Ok,
            Err(m) => r matches Err(e) && e@ == m,
        },
{
    match execution_error {
        Some(e) => return Err(e),
        None => {},
    }
    let succeeded = match status {
        Some(s) => s.success,
        None => false,
    };
    if !succeeded {
        return match status {
            Some(ExitReport { code: Some(c), .. }) => {
                let digits = i32_text(c);
                Err(concat("choices provider exited with status ", digits.as_str()))
            },
            _ => Err(String::from_str("choices provider terminated without an exit code")),
        };
    }
    if stdout_truncated {
        return Err(PluginActionChoicesParseError::OutputTooLarge.to_string());
    }
    Ok(())
}

/// The pane and link a plugin was invoked from.
#[derive(Debug, Clone, PartialEq, Eq, Default)]
pub struct PluginInvocationContext {
    pub workspace_id: Option<String>,
    pub tab_id: Option<String>,
    pub focused_pane_id: Option<String>,
    pub clicked_url: Option<String>,
    pub link_handler_id: Option<String>,
}

pub open spec fn env_entry(key: Seq<char>, value: Seq<char>) -> Seq<(Seq<char>, Seq<char>)> {
    seq![(key, value)]
}

pub open spec fn optional_entry(key: Seq<char>, value: Option<Seq<char>>) -> Seq<(Seq<char>, Seq<char>)> {
    match value {
        Some(v) => seq![(key, v)],
        None => seq![],
    }
}

pub open spec fn env_texts(env: Seq<(String, String)>) -> Seq<(Seq<char>, Seq<char>)> {
    env.map_values(|e: (String, String)| (e.0@, e.1@))
}

/// The environment of a plugin command: the plugin's search path entries,
/// the socket path, the plugin's identity and invocation context, the path of
/// this program when known, then each optional detail that is present.
pub open spec fn plugin_env(
    path_env: Seq<(Seq<char>, Seq<char>)>,
    socket_path: Seq<char>,
    plugin_id: Seq<char>,
    context_json: Seq<char>,
    bin_path: Option<Seq<char>>,
    context: PluginInvocationContext,
    action_id: Option<Seq<char>>,
    event: Option<Seq<char>>,
    event_json: Option<Seq<char>>,
    choice_json: Option<Seq<char>>,
) -> Seq<(Seq<char>, Seq<char>)> {
    path_env + env_entry("HERDR_SOCKET_PATH"@, socket_path) + env_entry("HERDR_ENV"@, "1"@) + env_entry(
        "HERDR_PLUGIN_ID"@,
        plugin_id,
    ) + env_entry("HERDR_PLUGIN_CONTEXT_JSON"@, context_json) + optional_entry("HERDR_BIN_PATH"@, bin_path)
        + optional_entry("HERDR_PLUGIN_ACTION_ID"@, action_id) + optional_entry("HERDR_PLUGIN_EVENT"@, event)
        + optional_entry("HERDR_PLUGIN_EVENT_JSON"@, event_json) + optional_entry(
        "HERDR_WORKSPACE_ID"@,
        crate::text::opt_view(context.workspace_id),
    ) + optional_entry("HERDR_TAB_ID"@, crate::text::opt_view(context.tab_id)) + optional_entry(
        "HERDR_PANE_ID"@,
        crate::text::opt_view(context.focused_pane_id),
    ) + optional_entry("HERDR_PLUGIN_CLICKED_URL"@, crate::text::opt_view(context.clicked_url))
        + optional_entry("HERDR_PLUGIN_LINK_HANDLER_ID"@, crate::text::opt_view(context.link_handler_id))
        + optional_entry("HERDR_PLUGIN_ACTION_CHOICE_JSON"@, choice_json)
}

pub open spec fn opt_str(o: Option<&str>) -> Option<Seq<char>> {
    match o {
        Some(s) => Some(s@),
        None => None,
    }
}

fn push_entry(env: &mut Vec<(String, String)>, key: &str, value: &str)
    ensures
        env_texts(final(env)@) == env_texts(old(env)@) + env_entry(key@, value@),
{
    let ghost before = env@;
    env.push((String::from_str(key), String::from_str(value)));
    assert(env_texts(env@) =~= env_texts(before) + env_entry(key@, value@));
}

fn push_optional(env: &mut Vec<(String, String)>, key: &str, value: Option<&str>)
    ensures
        env_texts(final(env)@) == env_texts(old(env)@) + optional_entry(key@, opt_str(value)),
{
    match value {
        Some(v) => push_entry(env, key, v),
        None => {
            assert(env_texts(env@) =~= env_texts(env@) + Seq::<(Seq<char>, Seq<char>)>::empty());
        },
    }
}

fn as_opt_str(o: &Option<String>) -> (r: Option<&str>)
    ensures
        opt_str(r) == crate::text::opt_view(*o),
{
    match o {
        Some(s) => Some(s.as_str()),
        None => None,
    }
}

/// The environment a plugin command is started with.
pub fn plugin_command_env(
    path_env: Vec<(String, String)>,
    socket_path: &str,
    plugin_id: &str,
    context_json: &str,
    bin_path: Option<&str>,
    context: &PluginInvocationContext,
    action_id: Option<&str>,
    event: Option<&str>,
    event_json: Option<&str>,
    choice_json: Option<&str>,
) -> (r: Vec<(String, String)>)
    ensures
        env_texts(r@) == plugin_env(
            env_texts(path_env@),
            socket_path@,
            plugin_id@,
            context_json@,
            opt_str(bin_path),
            *context,
            opt_str(action_id),
            opt_str(event),
            opt_str(event_json),
            opt_str(choice_json),
        ),
{
    let mut env = path_env;
    push_entry(&mut env, "HERDR_SOCKET_PATH", socket_path);
    push_entry(&mut env, "HERDR_ENV", "1");
    push_entry(&mut env, "HERDR_PLUGIN_ID", plugin_id);
    push_entry(&mut env, "HERDR_PLUGIN_CONTEXT_JSON", context_json);
    push_optional(&mut env, "HERDR_BIN_PATH", bin_path);
    push_optional(&mut env, "HERDR_PLUGIN_ACTION_ID", action_id);
    push_optional(&mut env, "HERDR_PLUGIN_EVENT", event);
    push_optional(&mut env, "HERDR_PLUGIN_EVENT_JSON", event_json);
    push_optional(&mut env, "HERDR_WORKSPACE_ID", as_opt_str(&context.workspace_id));
    push_optional(&mut env, "HERDR_TAB_ID", as_opt_str(&context.tab_id));
    push_optional(&mut env, "HERDR_PANE_ID", as_opt_str(&context.focused_pane_id));
    push_optional(&mut env, "HERDR_PLUGIN_CLICKED_URL", as_opt_str(&context.clicked_url));
    push_optional(&mut env, "HERDR_PLUGIN_LINK_HANDLER_ID", as_opt_str(&context.link_handler_id));
    push_optional(&mut env, "HERDR_PLUGIN_ACTION_CHOICE_JSON", choice_json);
    env
}

} // verus!
