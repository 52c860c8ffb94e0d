//! Command-line level data: the options the tool starts from, and the
//! parsing of a log-level word.  Argument collection itself happens
//! outside this crate; the values arrive here as plain strings.

use vstd::prelude::*;

verus! {

/// A logging verbosity level, from most to least talkative.
#[derive(Clone, Copy, PartialEq, Eq, Structural, Debug)]
pub enum LogLevel {
    Trace,
    Debug,
    Info,
    Warn,
    Error,
}

/// The start-up options: the path of the configuration file and the
/// logging level.
#[derive(Clone, Debug)]
pub struct CliArgs {
    pub config: String,
    pub log_level: LogLevel,
}

/// An ASCII upper-case letter folded to lower case; anything else kept.
pub open spec fn lower_char(c: char) -> char {
    if 'A' <= c && c <= 'Z' {
        (((c as u8) + 32) as char)
    } else {
        c
    }
}

/// A string folded character by character.
pub open spec fn lower_str(s: Seq<char>) -> Seq<char> {
    s.map_values(|c: char| lower_char(c))
}

/// The level a string names, ignoring ASCII case — or nothing, when it
/// names none.
pub open spec fn spec_parse_level(s: Seq<char>) -> Option<LogLevel> {
    let low = lower_str(s);
    if low == "trace"@ {
        Some(LogLevel::Trace)
    } else if low == "debug"@ {
        Some(LogLevel::Debug)
    } else if low == "info"@ {
        Some(LogLevel::Info)
    } else if low == "warn"@ {
        Some(LogLevel::Warn)
    } else if low == "error"@ {
        Some(LogLevel::Error)
    } else {
        None
    }
}

/// Relies on str::to_ascii_lowercase: ASCII upper-case letters map to
/// their lower-case counterparts and every other character is copied
/// unchanged.
#[verifier::external_body]
fn ascii_lowercase(s: &str) -> (r: String)
    ensures
        r@ == lower_str(s@),
{
    s.to_ascii_lowercase()
}

/// Reads a logging level from its (case-insensitive) name.  Any other
/// word is rejected, naming the folded input in the message.
pub fn parse_tracing_level(s: &str) -> (r: Result<LogLevel, String>)
    ensures
        r matches Ok(level) ==> spec_parse_level(s@) == Some(level),
        r is Err <==> spec_parse_level(s@) is None,
        r matches Err(m) ==> m@ == "Unexpected log level: '"@ + lower_str(s@) + "'"@,
{
    let low = ascii_lowercase(s);
    if low == String::from_str("trace") {
        Ok(LogLevel::Trace)
    } else if low == String::from_str("debug") {
        Ok(LogLevel::Debug)
    } else if low == String::from_str("info") {
        Ok(LogLevel::Info)
    } else if low == String::from_str("warn") {
        Ok(LogLevel::Warn)
    } else if low == String::from_str("error") {
        Ok(LogLevel::Error)
    } else {
        let mut msg = String::from_str("Unexpected log level: '");
        msg.append(low.as_str());
        msg.append("'");
        Err(msg)
    }
}

} // verus!
