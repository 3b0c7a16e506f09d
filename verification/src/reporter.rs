//! How loudly the tools report: the verbosity levels and which messages
//! each reporter shows.
use vstd::prelude::*;
use crate::text::append_str;

verus! {

#[derive(Debug, Clone, Copy, PartialEq, Eq, PartialOrd, Ord)]
pub enum Verbosity {
    Quiet,
    Normal,
    Verbose,
}

/// The rank of a verbosity level: quiet below normal below verbose.
pub open spec fn rank(v: Verbosity) -> nat {
    match v {
        Verbosity::Quiet => 0,
        Verbosity::Normal => 1,
        Verbosity::Verbose => 2,
    }
}

fn rank_of(v: Verbosity) -> (r: u8)
    ensures
        r as nat == rank(v),
{
    match v {
        Verbosity::Quiet => 0,
        Verbosity::Normal => 1,
        Verbosity::Verbose => 2,
    }
}

/// The kinds of messages a reporter handles.
#[derive(Debug, Clone, Copy, PartialEq, Eq)]
pub enum MessageKind {
    Info,
    Warn,
    Error,
    Debug,
}

#[derive(Debug, Clone, Copy)]
pub enum Reporter {
    Console(Verbosity),
    Silent,
}

/// Whether `r` shows a message of kind `k`: info and warnings from normal
/// verbosity on, debug messages only when verbose, errors always on the
/// console; a silent reporter shows nothing.
pub open spec fn shows(r: Reporter, k: MessageKind) -> bool {
    match r {
        Reporter::Console(v) => match k {
            MessageKind::Info => rank(v) >= 1,
            MessageKind::Warn => rank(v) >= 1,
            MessageKind::Error => true,
            MessageKind::Debug => rank(v) >= 2,
        },
        Reporter::Silent => false,
    }
}

/// The prefix a message of kind `k` is printed with.
pub open spec fn prefix(k: MessageKind) -> Seq<char> {
    match k {
        MessageKind::Info => seq![],
        MessageKind::Warn => "  WARN: "@,
        MessageKind::Error => seq![],
        MessageKind::Debug => "  DEBUG: "@,
    }
}

impl Reporter {
    pub fn console(verbosity: Verbosity) -> (r: Self)
        ensures
            r == Reporter::Console(verbosity),
    {
        Reporter::Console(verbosity)
    }

    pub fn silent() -> (r: Self)
        ensures
            r == Reporter::Silent,
    {
        Reporter::Silent
    }

    pub fn verbosity(&self) -> (r: Verbosity)
        ensures
            r == match *self {
                Reporter::Console(v) => v,
                Reporter::Silent => Verbosity::Quiet,
            },
    {
        match self {
            Reporter::Console(verbosity) => *verbosity,
            Reporter::Silent => Verbosity::Quiet,
        }
    }

    /// Whether this reporter shows a message of kind `kind`.
    pub fn shows(&self, kind: MessageKind) -> (r: bool)
        ensures
            r == shows(*self, kind),
    {
        match self {
            Reporter::Console(verbosity) => match kind {
                MessageKind::Info => rank_of(*verbosity) >= 1,
                MessageKind::Warn => rank_of(*verbosity) >= 1,
                MessageKind::Error => true,
                MessageKind::Debug => rank_of(*verbosity) >= 2,
            },
            Reporter::Silent => false,
        }
    }

    /// The line this reporter prints for `message`, if it shows it.
    pub fn line(&self, kind: MessageKind, message: &str) -> (r: Option<String>)
        ensures
            shows(*self, kind) ==> (r matches Some(l) && l@ == prefix(kind) + message@),
            !shows(*self, kind) ==> r is None,
    {
        if !self.shows(kind) {
            return None;
        }
        let mut l = String::new();
        match kind {
            MessageKind::Warn => append_str(&mut l, "  WARN: "),
            MessageKind::Debug => append_str(&mut l, "  DEBUG: "),
            _ => {},
        }
        append_str(&mut l, message);
        assert(l@ =~= prefix(kind) + message@);
        Some(l)
    }
}

/// A more verbose console reporter shows every message a less verbose one
/// shows; a silent reporter shows nothing.
pub proof fn law_verbosity_monotone(low: Verbosity, high: Verbosity, kind: MessageKind)
    requires
        rank(low) <= rank(high),
    ensures
        shows(Reporter::Console(low), kind) ==> shows(Reporter::Console(high), kind),
        !shows(Reporter::Silent, kind),
{
}

} // verus!
