//! Values given on the command line.

use vstd::prelude::*;
use vstd::string::*;

use crate::lines::{trim_text, trimmed_text};
use crate::metadata::TriggerKind;
use crate::text::{lemma_views_push, views};

verus! {

/// Which rendering mode the program is operating in.
#[derive(Debug, Clone, Copy, PartialEq, Eq, Structural)]
pub enum OutputMode {
    Text,
    Json,
}

impl OutputMode {
    /// Whether output is machine-readable.
    #[must_use]
    pub fn is_json(self) -> (r: bool)
        ensures
            r == (self == OutputMode::Json),
    {
        match self {
            OutputMode::Json => true,
            OutputMode::Text => false,
        }
    }
}

/// The trigger kinds that can be given on the command line.
#[derive(Debug, Clone, Copy, PartialEq, Eq, Structural)]
pub enum TriggerKindArg {
    Manual,
    Pacman,
    SystemdBoot,
    SystemdPeriodic,
    Unknown,
}

/// The trigger that an argument stands for.
pub open spec fn arg_kind(v: TriggerKindArg) -> TriggerKind {
    match v {
        TriggerKindArg::Manual => TriggerKind::Manual,
        TriggerKindArg::Pacman => TriggerKind::Pacman,
        TriggerKindArg::SystemdBoot => TriggerKind::SystemdBoot,
        TriggerKindArg::SystemdPeriodic => TriggerKind::SystemdPeriodic,
        TriggerKindArg::Unknown => TriggerKind::Unknown,
    }
}

impl TriggerKindArg {
    /// The trigger that the argument stands for.
    pub fn kind(self) -> (r: TriggerKind)
        ensures
            r == arg_kind(self),
    {
        match self {
            TriggerKindArg::Manual => TriggerKind::Manual,
            TriggerKindArg::Pacman => TriggerKind::Pacman,
            TriggerKindArg::SystemdBoot => TriggerKind::SystemdBoot,
            TriggerKindArg::SystemdPeriodic => TriggerKind::SystemdPeriodic,
            TriggerKindArg::Unknown => TriggerKind::Unknown,
        }
    }
}

/// The trigger of a snapshot: the one given, or `manual`.
pub open spec fn trigger_of(arg: Option<TriggerKindArg>) -> TriggerKind {
    match arg {
        Some(a) => arg_kind(a),
        None => TriggerKind::Manual,
    }
}

/// The trigger of a snapshot: the one given, or `manual`. `restore` cannot be
/// given.
pub fn build_trigger(arg: Option<TriggerKindArg>) -> (r: TriggerKind)
    ensures
        r == trigger_of(arg),
        r != TriggerKind::Restore,
{
    match arg {
        Some(a) => a.kind(),
        None => TriggerKind::Manual,
    }
}

/// The lines trimmed, without those that are blank.
pub open spec fn message_lines(lines: Seq<Seq<char>>) -> Seq<Seq<char>>
    decreases lines.len(),
{
    if lines.len() == 0 {
        Seq::empty()
    } else {
        let before = message_lines(lines.drop_last());
        let t = trimmed_text(lines.last());
        if t.len() == 0 {
            before
        } else {
            before.push(t)
        }
    }
}

/// The message items of a snapshot: those given as arguments, then the
/// non-blank lines read.
pub fn message_items_of(given: Vec<String>, lines: &Vec<String>) -> (r: Vec<String>)
    ensures
        views(r@) == views(given@) + message_lines(views(lines@)),
{
    let ghost first = views(given@);
    let ghost all = views(lines@);
    let mut out = given;
    let mut i: usize = 0;
    assert(views(out@) =~= first + message_lines(all.take(0)));
    while i < lines.len()
        invariant
            i <= lines.len(),
            all == views(lines@),
            views(out@) == first + message_lines(all.take(i as int)),
        decreases lines.len() - i,
    {
        let t = trim_text(lines[i].as_str());
        let ghost before = out@;
        proof {
            assert(all.take(i + 1).drop_last() =~= all.take(i as int));
            assert(all.take(i + 1).last() == lines@[i as int]@);
        }
        if !t.as_str().is_empty() {
            out.push(t);
            proof {
                lemma_views_push(before, t);
                assert(views(out@) =~= first + message_lines(all.take(i as int)).push(t@));
            }
        }
        i = i + 1;
    }
    assert(all.take(i as int) =~= all);
    out
}

/// The most detailed messages that are logged, by how often `-v` was given.
pub fn log_filter(verbose: u8) -> (r: &'static str)
    ensures
        r@ == (if verbose == 0 {
            "warn"@
        } else if verbose == 1 {
            "info"@
        } else if verbose == 2 {
            "debug"@
        } else {
            "trace"@
        }),
{
    if verbose == 0 {
        "warn"
    } else if verbose == 1 {
        "info"
    } else if verbose == 2 {
        "debug"
    } else {
        "trace"
    }
}

} // verus!
