//! The steps of the daemon.

use vstd::prelude::*;
use vstd::string::*;
use vstd::utf8::*;

use crate::config::{config_message, Config, ConfigError};
use crate::path::{paths_eq, same_path};
use crate::policy::{is_policy_of, policy_fault, policy_message, Policy, Users};

verus! {

/// What the daemon does next.
#[derive(Debug, Clone, Copy, PartialEq, Eq)]
pub enum Step {
    /// See which signals came.
    LookAtSignals,
    /// Read the configuration again; `scan` if a scan was asked for as well.
    Reload { scan: bool },
    /// Wait for a change in the coredump directory.
    Poll,
    /// Tell the service manager that the daemon is alive.
    PingWatchdog(Wait),
    /// Read what changed.
    ReadEvents,
    /// See whether a scan was asked for; `due` if there will be one anyway.
    TakeScanRequest { due: bool },
    Scan,
    Stop,
    /// Give up: the wait failed.
    Fail,
}

/// How a wait ended that did not fail.
#[derive(Debug, Clone, Copy, PartialEq, Eq)]
pub enum Wait {
    TimedOut,
    /// There are events to read.
    Readable,
    /// Something else happened.
    Other,
}

/// What reading the events gave.
#[derive(Debug, Clone, Copy, PartialEq, Eq)]
pub enum Reading {
    /// So many events.
    Events(usize),
    WouldBlock,
    Failed,
}

/// What came of a step.
#[derive(Debug, Clone, Copy, PartialEq, Eq)]
pub enum Event {
    Signals { terminate: bool, reload: bool, scan: bool },
    Waited(Wait),
    Interrupted,
    WaitFailed,
    Read(Reading),
    ScanRequested(bool),
    Done,
}

/// Whether an event can come of a step.
pub open spec fn can_follow(step: Step, event: Event) -> bool {
    match step {
        Step::LookAtSignals => event is Signals,
        Step::Poll => event is Waited || event is Interrupted || event is WaitFailed,
        Step::ReadEvents => event is Read,
        Step::TakeScanRequest { .. } => event is ScanRequested,
        Step::Reload { .. } | Step::PingWatchdog(_) | Step::Scan => event is Done,
        Step::Stop | Step::Fail => false,
    }
}

/// The step that follows.
pub open spec fn step_after(step: Step, event: Event) -> Step {
    match (step, event) {
        (Step::LookAtSignals, Event::Signals { terminate, reload, scan }) => if terminate {
            Step::Stop
        } else if reload {
            Step::Reload { scan }
        } else if scan {
            Step::Scan
        } else {
            Step::Poll
        },
        (Step::Reload { scan }, _) => if scan {
            Step::Scan
        } else {
            Step::Poll
        },
        (Step::Poll, Event::Waited(wait)) => Step::PingWatchdog(wait),
        (Step::Poll, Event::Interrupted) => Step::LookAtSignals,
        (Step::PingWatchdog(wait), _) => match wait {
            Wait::TimedOut => Step::TakeScanRequest { due: true },
            Wait::Readable => Step::ReadEvents,
            Wait::Other => Step::TakeScanRequest { due: false },
        },
        (Step::ReadEvents, Event::Read(reading)) => Step::TakeScanRequest {
            due: reading matches Reading::Events(n) && n > 0,
        },
        (Step::TakeScanRequest { due }, Event::ScanRequested(requested)) => if due || requested {
            Step::Scan
        } else {
            Step::LookAtSignals
        },
        (Step::Scan, _) => Step::LookAtSignals,
        (Step::Stop, _) => Step::Stop,
        _ => Step::Fail,
    }
}

/// The first step, once the daemon watches the directory: a scan.
pub fn first_step() -> (step: Step)
    ensures
        step == Step::Scan,
{
    Step::Scan
}

/// The step that follows. The daemon gives up on an event that cannot come of a
/// step whose outcome matters.
pub fn next_step(step: Step, event: Event) -> (next: Step)
    ensures
        next == step_after(step, event),
{
    match step {
        Step::LookAtSignals => match event {
            Event::Signals { terminate, reload, scan } => if terminate {
                Step::Stop
            } else if reload {
                Step::Reload { scan }
            } else if scan {
                Step::Scan
            } else {
                Step::Poll
            },
            _ => Step::Fail,
        },
        Step::Reload { scan } => if scan {
            Step::Scan
        } else {
            Step::Poll
        },
        Step::Poll => match event {
            Event::Waited(wait) => Step::PingWatchdog(wait),
            Event::Interrupted => Step::LookAtSignals,
            _ => Step::Fail,
        },
        Step::PingWatchdog(wait) => match wait {
            Wait::TimedOut => Step::TakeScanRequest { due: true },
            Wait::Readable => Step::ReadEvents,
            Wait::Other => Step::TakeScanRequest { due: false },
        },
        Step::ReadEvents => match event {
            Event::Read(reading) => {
                let due = match reading {
                    Reading::Events(count) => count > 0,
                    _ => false,
                };
                Step::TakeScanRequest { due }
            },
            _ => Step::Fail,
        },
        Step::TakeScanRequest { due } => match event {
            Event::ScanRequested(requested) => if due || requested {
                Step::Scan
            } else {
                Step::LookAtSignals
            },
            _ => Step::Fail,
        },
        Step::Scan => Step::LookAtSignals,
        Step::Stop => Step::Stop,
        Step::Fail => Step::Fail,
    }
}

/// The step after a row of events.
pub open spec fn step_after_all(step: Step, events: Seq<Event>) -> Step
    decreases events.len(),
{
    if events.len() == 0 {
        step
    } else {
        step_after(step_after_all(step, events.drop_last()), events.last())
    }
}

/// Whether each of a row of events can come of the step before it.
pub open spec fn can_follow_all(step: Step, events: Seq<Event>) -> bool
    decreases events.len(),
{
    events.len() == 0 || (can_follow_all(step, events.drop_last()) && can_follow(
        step_after_all(step, events.drop_last()),
        events.last(),
    ))
}

/// A signal to terminate is obeyed as soon as it is seen, whatever else came,
/// and nothing follows.
pub proof fn lemma_termination(reload: bool, scan: bool, event: Event)
    ensures
        step_after(Step::LookAtSignals, Event::Signals { terminate: true, reload, scan })
            == Step::Stop,
        !can_follow(Step::Stop, event),
{
}

/// A signal that interrupts a wait is obeyed before the next wait: a reload
/// comes first, and a scan that was asked for comes right behind it.
pub proof fn lemma_interruption(reload: bool, scan: bool)
    ensures
        ({
            let signals = seq![
                Event::Interrupted,
                Event::Signals { terminate: false, reload, scan },
            ];
            &&& can_follow_all(Step::Poll, signals)
            &&& reload ==> step_after_all(Step::Poll, signals) == Step::Reload { scan }
            &&& scan ==> step_after_all(
                Step::Poll,
                if reload {
                    signals.push(Event::Done)
                } else {
                    signals
                },
            ) == Step::Scan
        }),
{
    reveal_with_fuel(step_after_all, 4);
    reveal_with_fuel(can_follow_all, 4);
    let one = seq![Event::Interrupted];
    let two = one.push(Event::Signals { terminate: false, reload, scan });
    assert(seq![Event::Interrupted, Event::Signals { terminate: false, reload, scan }] =~= two);
    assert(two.push(Event::Done).drop_last() =~= two);
    assert(two.drop_last() =~= one);
    assert(one.drop_last() =~= Seq::empty());
}

/// After a wait that ended well the watchdog is told. Then there is a scan if
/// and only if the wait timed out, or events were read, or one was asked for.
pub proof fn lemma_when_to_scan(wait: Wait, reading: Reading, requested: bool)
    ensures
        step_after(Step::Poll, Event::Waited(wait)) == Step::PingWatchdog(wait),
        ({
            let events = if wait is Readable {
                seq![
                    Event::Waited(wait),
                    Event::Done,
                    Event::Read(reading),
                    Event::ScanRequested(requested),
                ]
            } else {
                seq![Event::Waited(wait), Event::Done, Event::ScanRequested(requested)]
            };
            &&& can_follow_all(Step::Poll, events)
            &&& step_after_all(Step::Poll, events) == if wait is TimedOut || (wait is Readable && (
            reading matches Reading::Events(n) && n > 0)) || requested {
                Step::Scan
            } else {
                Step::LookAtSignals
            }
        }),
{
    reveal_with_fuel(step_after_all, 5);
    reveal_with_fuel(can_follow_all, 5);
    let one = seq![Event::Waited(wait)];
    let two = one.push(Event::Done);
    if wait is Readable {
        let three = two.push(Event::Read(reading));
        let four = three.push(Event::ScanRequested(requested));
        let events = seq![
            Event::Waited(wait),
            Event::Done,
            Event::Read(reading),
            Event::ScanRequested(requested),
        ];
        assert(events =~= four);
        assert(four.drop_last() =~= three);
        assert(three.drop_last() =~= two);
    } else {
        let three = two.push(Event::ScanRequested(requested));
        assert(seq![Event::Waited(wait), Event::Done, Event::ScanRequested(requested)] =~= three);
        assert(three.drop_last() =~= two);
    }
    assert(two.drop_last() =~= one);
    assert(one.drop_last() =~= Seq::empty());
}

/// The daemon gives up only where a wait failed, and stops only where it was
/// told to.
pub proof fn lemma_reasons_to_end(step: Step, event: Event)
    requires
        can_follow(step, event),
    ensures
        step_after(step, event) is Fail <==> step is Poll && event is WaitFailed,
        step_after(step, event) is Stop <==> (event matches Event::Signals { terminate, .. }
            && terminate),
{
}

/// The configuration that the daemon runs with and the policy made of it.
#[derive(Debug)]
pub struct Settings {
    pub config: Config,
    pub policy: Policy,
}

/// What came of a new configuration.
#[derive(Debug)]
pub enum Reloaded {
    /// It is in force; there may be something to warn of.
    Adopted(Option<String>),
    /// It is not; this is why.
    Refused(String),
}

/// The warning that the directory that is watched stays the same.
pub open spec fn directory_warning(shown_directory: Seq<char>) -> Seq<char> {
    "coredump_directory change requires restart: still watching "@ + shown_directory
}

impl Settings {
    /// Puts a new configuration in force, if a policy can be made of it. The
    /// directory that is watched stays the same; if the new configuration names
    /// another one, the result warns of that. A configuration of which no policy
    /// can be made changes nothing.
    pub fn reload(&mut self, fresh: Config, users: &Users) -> (reloaded: Reloaded)
        ensures
            match policy_fault(fresh@.rules, users.entries@) {
                None => {
                    &&& final(self).config == fresh
                    &&& is_policy_of(final(self).policy, fresh@.rules, users.entries@)
                    &&& reloaded matches Reloaded::Adopted(warning)
                    &&& warning is None <==> same_path(
                        encode_utf8(fresh.coredump_directory@),
                        encode_utf8(old(self).config.coredump_directory@),
                    )
                    &&& warning matches Some(text) ==> text@ == directory_warning(
                        old(self).config.coredump_directory@,
                    )
                },
                Some(fault) => {
                    &&& *final(self) == *old(self)
                    &&& reloaded matches Reloaded::Refused(text)
                    &&& text@ == "reload: invalid pattern: "@ + policy_message(fault)
                },
            },
    {
        match Policy::from_config(&fresh, users) {
            Ok(policy) => {
                let warning = if paths_eq(
                    fresh.coredump_directory.as_str().as_bytes_vec().as_slice(),
                    self.config.coredump_directory.as_str().as_bytes_vec().as_slice(),
                ) {
                    None
                } else {
                    let mut text = String::from_str(
                        "coredump_directory change requires restart: still watching ",
                    );
                    text.append(self.config.coredump_directory.as_str());
                    Some(text)
                };
                self.config = fresh;
                self.policy = policy;
                Reloaded::Adopted(warning)
            },
            Err(e) => {
                let mut text = String::from_str("reload: invalid pattern: ");
                text.append(e.message().as_str());
                Reloaded::Refused(text)
            },
        }
    }
}

/// What the daemon says of a configuration that it could not read again.
pub fn reload_failure(e: &ConfigError) -> (text: String)
    ensures
        text@ == "reload failed: "@ + config_message(e@),
{
    let mut text = String::from_str("reload failed: ");
    text.append(e.message().as_str());
    text
}

/// Why the daemon does not run: the warning and the error.
#[derive(Debug)]
pub struct Refusal {
    pub warning: String,
    pub error: String,
}

/// The daemon does not run without rules, since it would delete every dump.
pub fn refuse_to_run(config: &Config, shown_path: &str) -> (refusal: Option<Refusal>)
    ensures
        match refusal {
            Some(r) => config@.rules.len() == 0 && r.warning@ == "no rules in "@ + shown_path@
                + "; daemon would delete every dump"@ && r.error@
                == "refusing to run with no rules; define at least one [rules.<name>] section"@,
            None => config@.rules.len() > 0,
        },
{
    if config.rules.len() > 0 {
        return None;
    }
    let mut warning = String::from_str("no rules in ");
    warning.append(shown_path);
    warning.append("; daemon would delete every dump");
    Some(
        Refusal {
            warning,
            error: String::from_str(
                "refusing to run with no rules; define at least one [rules.<name>] section",
            ),
        },
    )
}

/// Where there is nothing to do the daemon waits: when no signal came, and after
/// a reload without a scan. After a scan it looks at the signals again, before
/// it waits.
pub proof fn lemma_when_to_wait(signals: Event)
    requires
        can_follow(Step::LookAtSignals, signals),
    ensures
        step_after(Step::LookAtSignals, signals) is Poll <==> (signals matches Event::Signals {
            terminate,
            reload,
            scan,
        } && !terminate && !reload && !scan),
        step_after(Step::LookAtSignals, signals) is Scan <==> (signals matches Event::Signals {
            terminate,
            reload,
            scan,
        } && !terminate && !reload && scan),
        step_after(Step::Reload { scan: false }, Event::Done) is Poll,
        step_after(Step::Reload { scan: true }, Event::Done) is Scan,
        step_after(Step::Scan, Event::Done) is LookAtSignals,
        step_after(Step::Poll, Event::Interrupted) is LookAtSignals,
{
}

/// The warning tells the directories apart.
pub proof fn lemma_warnings_differ(a: Seq<char>, b: Seq<char>)
    ensures
        directory_warning(a) == directory_warning(b) ==> a == b,
{
    let before = "coredump_directory change requires restart: still watching "@;
    assert(directory_warning(a).skip(before.len() as int) =~= a);
    assert(directory_warning(b).skip(before.len() as int) =~= b);
}

} // verus!
