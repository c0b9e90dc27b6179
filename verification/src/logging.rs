//! Log levels, what is logged, and the form of a log line.

use vstd::prelude::*;

use crate::text::{
    append_padded, append_str, has_start, lowercase, make_lowercase, padded, same_text,
    starts_with_text,
};

verus! {

/// How much is logged.
#[derive(Debug, Clone, Copy, PartialEq, Eq, Structural)]
pub enum LevelFilter {
    Off,
    Error,
    Warn,
    Info,
    Debug,
    Trace,
}

/// How important a log line is.
#[derive(Debug, Clone, Copy, PartialEq, Eq, Structural)]
pub enum Level {
    Error,
    Warn,
    Info,
    Debug,
    Trace,
}

/// The level that a name stands for, whatever its case.
pub open spec fn named_level(name: Seq<char>) -> Option<LevelFilter> {
    let s = lowercase(name);
    if s == "error"@ {
        Some(LevelFilter::Error)
    } else if s == "warn"@ {
        Some(LevelFilter::Warn)
    } else if s == "info"@ {
        Some(LevelFilter::Info)
    } else if s == "debug"@ {
        Some(LevelFilter::Debug)
    } else if s == "trace"@ {
        Some(LevelFilter::Trace)
    } else if s == "off"@ {
        Some(LevelFilter::Off)
    } else {
        None
    }
}

/// The level that a name stands for; nothing for a name that is not known.
pub fn parse_level(s: &str) -> (r: Option<LevelFilter>)
    ensures
        r == named_level(s@),
{
    let low = make_lowercase(s);
    let t = low.as_str();
    if same_text(t, "error") {
        Some(LevelFilter::Error)
    } else if same_text(t, "warn") {
        Some(LevelFilter::Warn)
    } else if same_text(t, "info") {
        Some(LevelFilter::Info)
    } else if same_text(t, "debug") {
        Some(LevelFilter::Debug)
    } else if same_text(t, "trace") {
        Some(LevelFilter::Trace)
    } else if same_text(t, "off") {
        Some(LevelFilter::Off)
    } else {
        None
    }
}

/// The level that a name stands for, `Info` for a name that is not known.
pub open spec fn level_or_info(name: Seq<char>) -> LevelFilter {
    match named_level(name) {
        Some(l) => l,
        None => LevelFilter::Info,
    }
}

/// The level of a configuration.
pub fn level_of(name: &str) -> (r: LevelFilter)
    ensures
        r == level_or_info(name@),
{
    match parse_level(name) {
        Some(l) => l,
        None => LevelFilter::Info,
    }
}

/// The level that a request names, or the message that refuses it.
pub fn requested_level(name: &str) -> (r: Result<LevelFilter, String>)
    ensures
        match named_level(name@) {
            Some(l) => r == Ok::<LevelFilter, String>(l),
            None => r matches Err(m) && m@ == "Unknown log level: '"@ + name@ + "'"@,
        },
{
    match parse_level(name) {
        Some(l) => Ok(l),
        None => {
            let mut m = "Unknown log level: '".to_owned();
            append_str(&mut m, name);
            append_str(&mut m, "'");
            Err(m)
        },
    }
}

/// The state of the log.
pub struct LogState {
    /// The file that is written, if one is.
    pub path: Option<String>,
    /// Whether the logger was installed; that happens once.
    pub installed: bool,
    /// How much is logged.
    pub max_level: LevelFilter,
}

impl LogState {
    /// Nothing is logged.
    pub fn new() -> (r: LogState)
        ensures
            r.path is None,
            !r.installed,
            r.max_level == LevelFilter::Off,
    {
        LogState { path: None, installed: false, max_level: LevelFilter::Off }
    }
}

/// Log to a file that was opened. The logger is installed the first time; `install` tells
/// how that went, and is of no account later. An installation that failed keeps the level as
/// it was.
pub fn init(
    log: &mut LogState,
    log_path: &str,
    level: LevelFilter,
    install: Result<(), String>,
) -> (r: Result<(), String>)
    ensures
        final(log).path matches Some(p) && p@ == log_path@,
        final(log).installed,
        match (old(log).installed, install) {
            (false, Err(e)) => {
                &&& r matches Err(m)
                &&& m@ == "Failed to set logger: "@ + e@
                &&& final(log).max_level == old(log).max_level
            },
            _ => r is Ok && final(log).max_level == level,
        },
{
    log.path = Some(log_path.to_owned());
    if !log.installed {
        log.installed = true;
        match install {
            Ok(_) => {},
            Err(e) => {
                let mut m = "Failed to set logger: ".to_owned();
                append_str(&mut m, e.as_str());
                return Err(m);
            },
        }
    }
    log.max_level = level;
    Ok(())
}

/// Change how much is logged.
pub fn set_level(log: &mut LogState, level: LevelFilter)
    ensures
        final(log).max_level == level,
        final(log).path == old(log).path,
        final(log).installed == old(log).installed,
{
    log.max_level = level;
}

/// Whether lines of a target are logged: those of this crate and its parts.
pub fn enabled(target: &str) -> (r: bool)
    ensures
        r == starts_with_text(target@, "sakuin"@),
{
    has_start(target, "sakuin")
}

/// The name of a level, five characters wide.
pub open spec fn level_tag(level: Level) -> Seq<char> {
    match level {
        Level::Error => "ERROR"@,
        Level::Warn => "WARN "@,
        Level::Info => "INFO "@,
        Level::Debug => "DEBUG"@,
        Level::Trace => "TRACE"@,
    }
}

/// The name of a level, five characters wide.
pub fn tag(level: Level) -> (r: &'static str)
    ensures
        r@ == level_tag(level),
{
    match level {
        Level::Error => "ERROR",
        Level::Warn => "WARN ",
        Level::Info => "INFO ",
        Level::Debug => "DEBUG",
        Level::Trace => "TRACE",
    }
}

/// A moment on the calendar and the clock. The year counts from 1900 and the month from
/// zero.
#[derive(Debug, Clone, Copy, PartialEq, Eq, Structural)]
pub struct LocalTime {
    pub year: i32,
    pub month: i32,
    pub day: i32,
    pub hour: i32,
    pub minute: i32,
    pub second: i32,
}

/// The time that stands in a log line: date and clock where they are known, else seconds
/// and milliseconds.
pub open spec fn timestamp(local: Option<LocalTime>, secs: i64, ms: u32) -> Seq<char> {
    match local {
        Some(t) => padded(t.year + 1900, 4) + seq!['-'] + padded(t.month + 1, 2) + seq!['-']
            + padded(t.day as int, 2) + seq![' '] + padded(t.hour as int, 2) + seq![':'] + padded(
            t.minute as int,
            2,
        ) + seq![':'] + padded(t.second as int, 2) + seq!['.'] + padded(ms as int, 3),
        None => padded(secs as int, 0) + seq!['.'] + padded(ms as int, 3),
    }
}

/// The time that stands in a log line.
pub fn format_timestamp(local: Option<LocalTime>, secs: i64, ms: u32) -> (r: String)
    ensures
        r@ == timestamp(local, secs, ms),
{
    let mut s = String::new();
    match local {
        Some(t) => {
            append_padded(&mut s, t.year as i64 + 1900, 4);
            s.push('-');
            append_padded(&mut s, t.month as i64 + 1, 2);
            s.push('-');
            append_padded(&mut s, t.day as i64, 2);
            s.push(' ');
            append_padded(&mut s, t.hour as i64, 2);
            s.push(':');
            append_padded(&mut s, t.minute as i64, 2);
            s.push(':');
            append_padded(&mut s, t.second as i64, 2);
        },
        None => {
            append_padded(&mut s, secs, 0);
        },
    }
    s.push('.');
    append_padded(&mut s, ms as i64, 3);
    assert(s@ =~= timestamp(local, secs, ms));
    s
}

/// A log line: time, level, target and message.
pub open spec fn line_text(
    time: Seq<char>,
    level: Level,
    target: Seq<char>,
    message: Seq<char>,
) -> Seq<char> {
    time + seq![' '] + level_tag(level) + seq![' ', '['] + target + seq![']', ' '] + message + seq![
        '\n',
    ]
}

/// The line to write, if lines of the target are logged.
pub fn log_line(time: &str, level: Level, target: &str, message: &str) -> (r: Option<String>)
    ensures
        match r {
            Some(l) => starts_with_text(target@, "sakuin"@) && l@ == line_text(
                time@,
                level,
                target@,
                message@,
            ),
            None => !starts_with_text(target@, "sakuin"@),
        },
{
    if !enabled(target) {
        return None;
    }
    let mut s = String::new();
    append_str(&mut s, time);
    s.push(' ');
    append_str(&mut s, tag(level));
    s.push(' ');
    s.push('[');
    append_str(&mut s, target);
    s.push(']');
    s.push(' ');
    append_str(&mut s, message);
    s.push('\n');
    assert(s@ =~= line_text(time@, level, target@, message@));
    Some(s)
}

/// Every level tag is five characters wide, so that what stands behind it lines up.
pub proof fn tags_line_up(level: Level)
    ensures
        level_tag(level).len() == 5,
{
    reveal_strlit("ERROR");
    reveal_strlit("WARN ");
    reveal_strlit("INFO ");
    reveal_strlit("DEBUG");
    reveal_strlit("TRACE");
}

/// A level is told by its name without regard to case, and a name that is no level is none.
pub proof fn levels_are_told_by_name(name: Seq<char>)
    ensures
        named_level(name) == Some(LevelFilter::Error) <==> lowercase(name) == "error"@,
        named_level(name) == Some(LevelFilter::Warn) <==> lowercase(name) == "warn"@,
        named_level(name) == Some(LevelFilter::Info) <==> lowercase(name) == "info"@,
        named_level(name) == Some(LevelFilter::Debug) <==> lowercase(name) == "debug"@,
        named_level(name) == Some(LevelFilter::Trace) <==> lowercase(name) == "trace"@,
        named_level(name) == Some(LevelFilter::Off) <==> lowercase(name) == "off"@,
        named_level(name) is None <==> lowercase(name) != "error"@ && lowercase(name) != "warn"@
            && lowercase(name) != "info"@ && lowercase(name) != "debug"@ && lowercase(name)
            != "trace"@ && lowercase(name) != "off"@,
        named_level(name) is None ==> level_or_info(name) == LevelFilter::Info,
        named_level(name) matches Some(l) ==> level_or_info(name) == l,
{
    reveal_strlit("error");
    reveal_strlit("warn");
    reveal_strlit("info");
    reveal_strlit("debug");
    reveal_strlit("trace");
    reveal_strlit("off");
    assert("error"@[0] == 'e' && "warn"@[0] == 'w' && "info"@[0] == 'i' && "debug"@[0] == 'd'
        && "trace"@[0] == 't' && "off"@[0] == 'o');
}

/// A log line holds the time, the level in capitals, the target in brackets and the message,
/// and ends with a line feed.
pub proof fn log_lines_have_four_parts(
    time: Seq<char>,
    level: Level,
    target: Seq<char>,
    message: Seq<char>,
)
    ensures
        line_text(time, level, target, message) == time + " "@ + (match level {
            Level::Error => "ERROR"@,
            Level::Warn => "WARN "@,
            Level::Info => "INFO "@,
            Level::Debug => "DEBUG"@,
            Level::Trace => "TRACE"@,
        }) + " ["@ + target + "] "@ + message + "\n"@,
{
    reveal_strlit(" ");
    reveal_strlit(" [");
    reveal_strlit("] ");
    reveal_strlit("\n");
    assert(" "@ =~= seq![' ']);
    assert(" ["@ =~= seq![' ', '[']);
    assert("] "@ =~= seq![']', ' ']);
    assert("\n"@ =~= seq!['\n']);
}

/// The time of a log line: year, month and day, then hour, minute and second, then
/// milliseconds; the year counts from 1900 and the month from zero. Where the calendar is not
/// known, seconds and milliseconds.
pub proof fn timestamps_are_dates_or_seconds(t: LocalTime, secs: i64, ms: u32)
    ensures
        timestamp(Some(t), secs, ms) == padded(1900 + t.year, 4) + "-"@ + padded(1 + t.month, 2)
            + "-"@ + padded(t.day as int, 2) + " "@ + padded(t.hour as int, 2) + ":"@ + padded(
            t.minute as int,
            2,
        ) + ":"@ + padded(t.second as int, 2) + "."@ + padded(ms as int, 3),
        timestamp(None, secs, ms) == padded(secs as int, 0) + "."@ + padded(ms as int, 3),
{
    reveal_strlit("-");
    reveal_strlit(" ");
    reveal_strlit(":");
    reveal_strlit(".");
    assert("-"@ =~= seq!['-']);
    assert(" "@ =~= seq![' ']);
    assert(":"@ =~= seq![':']);
    assert("."@ =~= seq!['.']);
}

} // verus!
