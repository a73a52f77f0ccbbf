//! The bookkeeping of plugin commands: how many may run at once, and the
//! log of their runs, which keeps only the newest entries.

use vstd::prelude::*;
use crate::text::{concat, decimal, str_eq, u64_to_decimal};

verus! {

/// The most plugin commands that may run at once.
pub const MAX_PLUGIN_COMMANDS_IN_FLIGHT: usize = 32;

/// The most entries the plugin command log keeps.
pub const PLUGIN_COMMAND_LOG_LIMIT: usize = 200;

/// The last `n` items of `s` (all of them when there are fewer).
pub open spec fn keep_last<T>(s: Seq<T>, n: nat) -> Seq<T> {
    if s.len() > n {
        s.subrange(s.len() - n, s.len() as int)
    } else {
        s
    }
}

/// A log of plugin command runs, oldest first, holding at most
/// `PLUGIN_COMMAND_LOG_LIMIT` entries.
pub struct CommandLog<T> {
    entries: Vec<T>,
}

impl<T> View for CommandLog<T> {
    type V = Seq<T>;

    closed spec fn view(&self) -> Seq<T> {
        self.entries@
    }
}

impl<T> CommandLog<T> {
    #[verifier::type_invariant]
    closed spec fn bounded(self) -> bool {
        self.entries@.len() <= PLUGIN_COMMAND_LOG_LIMIT
    }

    pub fn new() -> (r: Self)
        ensures
            r@ == Seq::<T>::empty(),
    {
        CommandLog { entries: Vec::new() }
    }

    /// The entries, oldest first.
    pub fn entries(&self) -> (r: &[T])
        ensures
            r@ == self@,
            r@.len() <= PLUGIN_COMMAND_LOG_LIMIT,
    {
        proof {
            use_type_invariant(self);
        }
        self.entries.as_slice()
    }

    /// Append `entry`, dropping the oldest entries beyond the limit.
    pub fn push(&mut self, entry: T)
        ensures
            final(self)@ == keep_last(old(self)@.push(entry), PLUGIN_COMMAND_LOG_LIMIT as nat),
    {
        proof {
            use_type_invariant(&*self);
        }
        let mut entries = Vec::new();
        std::mem::swap(&mut entries, &mut self.entries);
        let ghost before = entries@;
        entries.push(entry);
        if entries.len() > PLUGIN_COMMAND_LOG_LIMIT {
            entries.remove(0);
            assert(entries@ =~= keep_last(before.push(entry), PLUGIN_COMMAND_LOG_LIMIT as nat));
        }
        self.entries = entries;
    }
}

/// Pushing onto the log keeps exactly the newest entries: whatever was
/// pushed last is the last entry, and the log never exceeds its limit.
pub proof fn lemma_log_keeps_newest<T>(before: Seq<T>, entry: T)
    requires
        before.len() <= PLUGIN_COMMAND_LOG_LIMIT,
    ensures
        keep_last(before.push(entry), PLUGIN_COMMAND_LOG_LIMIT as nat).len() <= PLUGIN_COMMAND_LOG_LIMIT,
        keep_last(before.push(entry), PLUGIN_COMMAND_LOG_LIMIT as nat).last() == entry,
        before.len() < PLUGIN_COMMAND_LOG_LIMIT ==> keep_last(before.push(entry), PLUGIN_COMMAND_LOG_LIMIT as nat)
            == before.push(entry),
{
}

/// The most plugin action choices providers that may run at once; they
/// are counted apart from ordinary plugin commands.
pub const MAX_PLUGIN_ACTION_CHOICES_PROVIDERS_IN_FLIGHT: usize = 4;

/// Why a plugin command is not started.
#[derive(Debug, Clone, Copy, PartialEq, Eq, Structural)]
pub enum PluginCommandRefusal {
    /// The command names no program.
    EmptyCommand,
    /// As many plugin commands as allowed are running.
    LimitReached,
}

/// The message a plugin command refused at the limit is logged and
/// answered with.
pub open spec fn in_flight_limit_message() -> Seq<char> {
    "maximum concurrent plugin commands reached ("@ + decimal(MAX_PLUGIN_COMMANDS_IN_FLIGHT as nat) + ")"@
}

pub open spec fn command_refusal_code(e: PluginCommandRefusal) -> Seq<char> {
    match e {
        PluginCommandRefusal::EmptyCommand => "invalid_plugin_command"@,
        PluginCommandRefusal::LimitReached => "plugin_command_limit_reached"@,
    }
}

pub open spec fn command_refusal_message(e: PluginCommandRefusal) -> Seq<char> {
    match e {
        PluginCommandRefusal::EmptyCommand => "command must not be empty"@,
        PluginCommandRefusal::LimitReached => in_flight_limit_message(),
    }
}

impl PluginCommandRefusal {
    pub fn code(&self) -> (r: &'static str)
        ensures
            r@ == command_refusal_code(*self),
    {
        match self {
            PluginCommandRefusal::EmptyCommand => "invalid_plugin_command",
            PluginCommandRefusal::LimitReached => "plugin_command_limit_reached",
        }
    }

    pub fn message(&self) -> (r: String)
        ensures
            r@ == command_refusal_message(*self),
    {
        match self {
            PluginCommandRefusal::EmptyCommand => String::from_str("command must not be empty"),
            PluginCommandRefusal::LimitReached => {
                let limit = u64_to_decimal(MAX_PLUGIN_COMMANDS_IN_FLIGHT as u64);
                let head = concat("maximum concurrent plugin commands reached (", limit.as_str());
                concat(head.as_str(), ")")
            },
        }
    }
}

/// Whether plugin command `command` may start while `in_flight` commands
/// run: a command without a program is refused first, then one beyond the
/// limit.
pub fn admit_plugin_command(in_flight: usize, command: &[String]) -> (r: Result<(), PluginCommandRefusal>)
    ensures
        command@.len() == 0 ==> r == Err::<(), PluginCommandRefusal>(PluginCommandRefusal::EmptyCommand),
        command@.len() > 0 && in_flight >= MAX_PLUGIN_COMMANDS_IN_FLIGHT ==> r == Err::<(), PluginCommandRefusal>(
            PluginCommandRefusal::LimitReached,
        ),
        command@.len() > 0 && in_flight < MAX_PLUGIN_COMMANDS_IN_FLIGHT ==> r is Ok,
{
    if command.len() == 0 {
        return Err(PluginCommandRefusal::EmptyCommand);
    }
    if in_flight >= MAX_PLUGIN_COMMANDS_IN_FLIGHT {
        return Err(PluginCommandRefusal::LimitReached);
    }
    Ok(())
}

/// Why a plugin action choices provider is not started.
#[derive(Debug, Clone, Copy, PartialEq, Eq, Structural)]
pub enum ProviderAdmissionError {
    /// The choices command names no program.
    EmptyCommand,
    /// A provider for the same request identity is already running.
    DuplicateRequest,
    /// As many providers as allowed are running.
    LimitReached,
}

pub open spec fn provider_limit_message() -> Seq<char> {
    "maximum concurrent plugin action choices providers reached ("@ + decimal(
        MAX_PLUGIN_ACTION_CHOICES_PROVIDERS_IN_FLIGHT as nat,
    ) + ")"@
}

pub open spec fn provider_refusal_code(e: ProviderAdmissionError) -> Seq<char> {
    match e {
        ProviderAdmissionError::EmptyCommand => "invalid_plugin_command"@,
        ProviderAdmissionError::DuplicateRequest => "duplicate_plugin_action_choices_request"@,
        ProviderAdmissionError::LimitReached => "plugin_action_choices_provider_limit_reached"@,
    }
}

pub open spec fn provider_refusal_message(e: ProviderAdmissionError) -> Seq<char> {
    match e {
        ProviderAdmissionError::EmptyCommand => "choices command must not be empty"@,
        ProviderAdmissionError::DuplicateRequest => "choices provider request identity is already in flight"@,
        ProviderAdmissionError::LimitReached => provider_limit_message(),
    }
}

impl ProviderAdmissionError {
    pub fn code(&self) -> (r: &'static str)
        ensures
            r@ == provider_refusal_code(*self),
    {
        match self {
            ProviderAdmissionError::EmptyCommand => "invalid_plugin_command",
            ProviderAdmissionError::DuplicateRequest => "duplicate_plugin_action_choices_request",
            ProviderAdmissionError::LimitReached => "plugin_action_choices_provider_limit_reached",
        }
    }

    pub fn message(&self) -> (r: String)
        ensures
            r@ == provider_refusal_message(*self),
    {
        match self {
            ProviderAdmissionError::EmptyCommand => String::from_str("choices command must not be empty"),
            ProviderAdmissionError::DuplicateRequest => String::from_str(
                "choices provider request identity is already in flight",
            ),
            ProviderAdmissionError::LimitReached => {
                let limit = u64_to_decimal(MAX_PLUGIN_ACTION_CHOICES_PROVIDERS_IN_FLIGHT as u64);
                let head = concat("maximum concurrent plugin action choices providers reached (", limit.as_str());
                concat(head.as_str(), ")")
            },
        }
    }
}

/// The request identities among `in_flight` equal to `request_id`.
pub open spec fn request_in_flight(request_id: Seq<char>, in_flight: Seq<String>) -> bool {
    exists|i: int| 0 <= i < in_flight.len() && #[trigger] in_flight[i]@ == request_id
}

/// Whether a choices provider for `request_id` running `command` may start
/// while the providers of `in_flight` run. Admission is global and apart
/// from ordinary plugin commands: a command without a program is refused
/// first, then a request already running, then one beyond the limit.
pub fn admit_choices_provider(request_id: &str, in_flight: &[String], command: &[String]) -> (r: Result<(), ProviderAdmissionError>)
    ensures
        command@.len() == 0 ==> r == Err::<(), ProviderAdmissionError>(ProviderAdmissionError::EmptyCommand),
        command@.len() > 0 && request_in_flight(request_id@, in_flight@) ==> r == Err::<(), ProviderAdmissionError>(
            ProviderAdmissionError::DuplicateRequest,
        ),
        command@.len() > 0 && !request_in_flight(request_id@, in_flight@) && in_flight@.len()
            >= MAX_PLUGIN_ACTION_CHOICES_PROVIDERS_IN_FLIGHT ==> r == Err::<(), ProviderAdmissionError>(
            ProviderAdmissionError::LimitReached,
        ),
        command@.len() > 0 && !request_in_flight(request_id@, in_flight@) && in_flight@.len()
            < MAX_PLUGIN_ACTION_CHOICES_PROVIDERS_IN_FLIGHT ==> r is Ok,
{
    if command.len() == 0 {
        return Err(ProviderAdmissionError::EmptyCommand);
    }
    let mut i: usize = 0;
    while i < in_flight.len()
        invariant
            command@.len() > 0,
            0 <= i <= in_flight@.len(),
            forall|j: int| 0 <= j < i ==> #[trigger] in_flight@[j]@ != request_id@,
        decreases in_flight@.len() - i,
    {
        if str_eq(in_flight[i].as_str(), request_id) {
            assert(in_flight@[i as int]@ == request_id@);
            return Err(ProviderAdmissionError::DuplicateRequest);
        }
        i = i + 1;
    }
    if in_flight.len() >= MAX_PLUGIN_ACTION_CHOICES_PROVIDERS_IN_FLIGHT {
        return Err(ProviderAdmissionError::LimitReached);
    }
    Ok(())
}

/// The identity of the plugin command log entry numbered `n`.
pub fn plugin_log_id(n: u64) -> (r: String)
    ensures
        r@ == "plugin-log-"@ + decimal(n as nat),
{
    let digits = u64_to_decimal(n);
    concat("plugin-log-", digits.as_str())
}

} // verus!
