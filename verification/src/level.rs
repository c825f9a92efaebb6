//! The severity levels of log events.
use vstd::prelude::*;

use crate::text::{lowered, owned, same, to_lower, trim, trimmed};

verus! {

/// How severe an event is.
#[derive(Clone, Copy, PartialEq, Eq, Structural, Hash, Debug)]
pub enum Level {
    Trace,
    Debug,
    Info,
    Warn,
    Error,
    Fatal,
}

/// The name of a level.
pub open spec fn level_text(level: Level) -> Seq<char> {
    match level {
        Level::Trace => "trace"@,
        Level::Debug => "debug"@,
        Level::Info => "info"@,
        Level::Warn => "warn"@,
        Level::Error => "error"@,
        Level::Fatal => "fatal"@,
    }
}

/// The level that a name stands for, in lower case and without white space at
/// its ends.
pub open spec fn level_named(name: Seq<char>) -> Option<Level> {
    if name == "trace"@ {
        Some(Level::Trace)
    } else if name == "debug"@ {
        Some(Level::Debug)
    } else if name == "info"@ || name == "information"@ {
        Some(Level::Info)
    } else if name == "warn"@ || name == "warning"@ {
        Some(Level::Warn)
    } else if name == "error"@ {
        Some(Level::Error)
    } else if name == "fatal"@ || name == "critical"@ {
        Some(Level::Fatal)
    } else {
        None
    }
}

/// The rank of a level among the levels, from the least severe on.
pub open spec fn severity_of(level: Level) -> nat {
    match level {
        Level::Trace => 0,
        Level::Debug => 1,
        Level::Info => 2,
        Level::Warn => 3,
        Level::Error => 4,
        Level::Fatal => 5,
    }
}

/// All levels, from the least severe on.
pub open spec fn all_levels() -> Seq<Level> {
    seq![Level::Trace, Level::Debug, Level::Info, Level::Warn, Level::Error, Level::Fatal]
}

impl Default for Level {
    fn default() -> (level: Self)
        ensures
            level == Level::Info,
    {
        Level::Info
    }
}

impl Level {
    /// All levels, from the least severe on.
    pub const ALL: [Level; 6] = [
        Level::Trace,
        Level::Debug,
        Level::Info,
        Level::Warn,
        Level::Error,
        Level::Fatal,
    ];

    /// The rank of the level among the levels, from the least severe on.
    pub fn severity(self) -> (rank: u8)
        ensures
            rank == severity_of(self),
    {
        match self {
            Level::Trace => 0,
            Level::Debug => 1,
            Level::Info => 2,
            Level::Warn => 3,
            Level::Error => 4,
            Level::Fatal => 5,
        }
    }

    /// The name of the level.
    pub fn name(self) -> (name: &'static str)
        ensures
            name@ == level_text(self),
    {
        match self {
            Level::Trace => "trace",
            Level::Debug => "debug",
            Level::Info => "info",
            Level::Warn => "warn",
            Level::Error => "error",
            Level::Fatal => "fatal",
        }
    }

    /// The name of the level.
    pub fn to_string(self) -> (name: String)
        ensures
            name@ == level_text(self),
    {
        owned(self.name())
    }

    /// The level with exactly the given name.
    pub fn from_name(name: &str) -> (result: Option<Self>)
        ensures
            match result {
                Some(level) => name@ == level_text(level),
                None => forall|level: Level| name@ != #[trigger] level_text(level),
            },
    {
        if same(name, "trace") {
            Some(Level::Trace)
        } else if same(name, "debug") {
            Some(Level::Debug)
        } else if same(name, "info") {
            Some(Level::Info)
        } else if same(name, "warn") {
            Some(Level::Warn)
        } else if same(name, "error") {
            Some(Level::Error)
        } else if same(name, "fatal") {
            Some(Level::Fatal)
        } else {
            None
        }
    }

    /// The level that a text names, without regard to case and to white space
    /// around the name.
    pub fn from_str(value: &str) -> (result: Result<Self, String>)
        ensures
            match level_named(lowered(trimmed(value@))) {
                Some(level) => result == Ok::<Level, String>(level),
                None => result is Err && result->Err_0@ == "unsupported log level: "@ + value@,
            },
    {
        let trimmed_value = trim(value);
        let name = to_lower(trimmed_value.as_str());
        let name = name.as_str();
        if same(name, "trace") {
            Ok(Level::Trace)
        } else if same(name, "debug") {
            Ok(Level::Debug)
        } else if same(name, "info") || same(name, "information") {
            Ok(Level::Info)
        } else if same(name, "warn") || same(name, "warning") {
            Ok(Level::Warn)
        } else if same(name, "error") {
            Ok(Level::Error)
        } else if same(name, "fatal") || same(name, "critical") {
            Ok(Level::Fatal)
        } else {
            let mut message = owned("unsupported log level: ");
            message.append(value);
            Err(message)
        }
    }
}

/// The name of a level names that level.
pub proof fn lemma_level_text_names_level(level: Level)
    ensures
        level_named(level_text(level)) == Some(level),
{
    reveal_strlit("trace");
    reveal_strlit("debug");
    reveal_strlit("info");
    reveal_strlit("warn");
    reveal_strlit("error");
    reveal_strlit("fatal");
    reveal_strlit("information");
    reveal_strlit("warning");
    reveal_strlit("critical");
    assert("trace"@[0] == 't');
    assert("debug"@[0] == 'd');
    assert("info"@[0] == 'i');
    assert("warn"@[0] == 'w');
    assert("error"@[0] == 'e');
    assert("fatal"@[0] == 'f');
}

/// The levels from the least severe to the most severe.
pub proof fn lemma_levels_rise(level: Level)
    ensures
        severity_of(Level::Trace) < severity_of(Level::Debug) < severity_of(Level::Info)
            < severity_of(Level::Warn) < severity_of(Level::Error) < severity_of(Level::Fatal),
        severity_of(Level::Trace) <= severity_of(level) <= severity_of(Level::Fatal),
{
}

/// The names of the levels, and those that stand for them beside: no other text names one.
pub proof fn lemma_levels_by_name(name: Seq<char>)
    ensures
        level_named(name) == Some(Level::Trace) <==> name == "trace"@,
        level_named(name) == Some(Level::Debug) <==> name == "debug"@,
        level_named(name) == Some(Level::Info) <==> name == "info"@ || name == "information"@,
        level_named(name) == Some(Level::Warn) <==> name == "warn"@ || name == "warning"@,
        level_named(name) == Some(Level::Error) <==> name == "error"@,
        level_named(name) == Some(Level::Fatal) <==> name == "fatal"@ || name == "critical"@,
{
    reveal_strlit("trace");
    reveal_strlit("debug");
    reveal_strlit("info");
    reveal_strlit("warn");
    reveal_strlit("error");
    reveal_strlit("fatal");
    reveal_strlit("information");
    reveal_strlit("warning");
    reveal_strlit("critical");
    assert("trace"@[0] == 't' && "debug"@[0] == 'd' && "info"@[0] == 'i' && "warn"@[0] == 'w');
    assert("error"@[0] == 'e' && "fatal"@[0] == 'f' && "critical"@[0] == 'c');
    assert("information"@[0] == 'i' && "warning"@[0] == 'w');
}

}
