//! Log lines.

use anstyle::{Ansi256Color, Color, Style};
use vstd::prelude::*;
use crate::text;

verus! {

/// Which part of the client speaks.
#[derive(Debug, Clone, Copy, PartialEq, Eq, Structural)]
pub enum Scope {
    Cli,
    App,
    Login,
    Socks,
    Protocol,
    Netstack,
}

/// How much a line matters.
#[derive(Debug, Clone, Copy, PartialEq, Eq, Structural)]
pub enum Level {
    Info,
    Warn,
    Error,
}

/// The color of warnings.
pub const WARN_COLOR: u8 = 220;

/// The color of errors.
pub const ERROR_COLOR: u8 = 196;

impl Scope {
    /// The name of the part.
    pub open spec fn name(self) -> Seq<char> {
        match self {
            Scope::Cli => "CLI"@,
            Scope::App => "APP"@,
            Scope::Login => "LOGIN"@,
            Scope::Socks => "SOCKS"@,
            Scope::Protocol => "PROTOCOL"@,
            Scope::Netstack => "NETSTACK"@,
        }
    }

    /// The color of the part.
    pub open spec fn hue(self) -> u8 {
        match self {
            Scope::Cli => 117,
            Scope::App => 81,
            Scope::Login => 118,
            Scope::Socks => 213,
            Scope::Protocol => 214,
            Scope::Netstack => 33,
        }
    }

    /// The name of the part.
    pub fn label(self) -> (r: &'static str)
        ensures
            r@ == self.name(),
    {
        match self {
            Scope::Cli => "CLI",
            Scope::App => "APP",
            Scope::Login => "LOGIN",
            Scope::Socks => "SOCKS",
            Scope::Protocol => "PROTOCOL",
            Scope::Netstack => "NETSTACK",
        }
    }

    /// The color of the part.
    pub fn color(self) -> (r: u8)
        ensures
            r == self.hue(),
    {
        match self {
            Scope::Cli => 117,
            Scope::App => 81,
            Scope::Login => 118,
            Scope::Socks => 213,
            Scope::Protocol => 214,
            Scope::Netstack => 33,
        }
    }
}

/// What switches a terminal to a color of the 256-color palette.
pub open spec fn color_on(code: u8) -> Seq<char> {
    seq!['\u{1b}', '[', '3', '8', ';', '5', ';'] + text::decimal(code as int) + seq!['m']
}

/// What switches a terminal back.
pub open spec fn color_off() -> Seq<char> {
    seq!['\u{1b}', '[', '0', 'm']
}

/// `Style::render` of `anstyle` for a style with a foreground color of the 256-color palette:
/// the escape sequence that switches to the color.
#[verifier::external_body]
fn style_ansi256(code: u8) -> (r: String)
    ensures
        r@ == color_on(code),
{
    Style::new().fg_color(Some(Color::Ansi256(Ansi256Color(code)))).render().to_string()
}

/// `Style::render_reset` of `anstyle` for a style with a foreground color of the 256-color
/// palette: the escape sequence that switches every style off, whatever the color.
#[verifier::external_body]
fn style_reset(code: u8) -> (r: String)
    ensures
        r@ == color_off(),
{
    Style::new().fg_color(Some(Color::Ansi256(Ansi256Color(code)))).render_reset().to_string()
}

/// A label in brackets and in color.
pub open spec fn tag(label: Seq<char>, code: u8) -> Seq<char> {
    color_on(code) + "["@ + label + "]"@ + color_off()
}

/// A log line: the time, a tag for what is more than information, the tag of the part that
/// speaks, and the message.
pub open spec fn line(level: Level, scope: Scope, timestamp: Seq<char>, message: Seq<char>) -> Seq<
    char,
> {
    let mark = match level {
        Level::Info => Seq::empty(),
        Level::Warn => tag("WARN"@, WARN_COLOR),
        Level::Error => tag("ERROR"@, ERROR_COLOR),
    };
    timestamp + " "@ + mark + tag(scope.name(), scope.hue()) + " "@ + message
}

fn render_tag(label: &str, code: u8) -> (r: String)
    ensures
        r@ == tag(label@, code),
{
    let off = style_reset(code);
    style_ansi256(code).concat("[").concat(label).concat("]").concat(off.as_str())
}

/// A log line.
pub fn log(level: Level, scope: Scope, timestamp: &str, message: &str) -> (r: String)
    ensures
        r@ == line(level, scope, timestamp@, message@),
{
    let mark = match level {
        Level::Info => String::new(),
        Level::Warn => render_tag("WARN", WARN_COLOR),
        Level::Error => render_tag("ERROR", ERROR_COLOR),
    };
    let who = render_tag(scope.label(), scope.color());
    timestamp.to_owned().concat(" ").concat(mark.as_str()).concat(who.as_str()).concat(
        " ",
    ).concat(message)
}

/// The line for a piece of information.
pub fn info(scope: Scope, timestamp: &str, message: &str) -> (r: String)
    ensures
        r@ == line(Level::Info, scope, timestamp@, message@),
{
    log(Level::Info, scope, timestamp, message)
}

/// The line for a warning.
pub fn warn(scope: Scope, timestamp: &str, message: &str) -> (r: String)
    ensures
        r@ == line(Level::Warn, scope, timestamp@, message@),
{
    log(Level::Warn, scope, timestamp, message)
}

/// The line for an error.
pub fn error(scope: Scope, timestamp: &str, message: &str) -> (r: String)
    ensures
        r@ == line(Level::Error, scope, timestamp@, message@),
{
    log(Level::Error, scope, timestamp, message)
}

// ---------------------------------------------------------------------------
// Laws
// ---------------------------------------------------------------------------

/// A line begins with the time and ends with the message, both as they are; between them stands
/// the part that speaks, in brackets. What is more than information has another tag in front of
/// that, a warning another one than an error.
#[verifier::rlimit(40)]
pub proof fn law_lines_show_time_part_and_message(
    scope: Scope,
    timestamp: Seq<char>,
    message: Seq<char>,
)
    ensures
        ({
            let info = line(Level::Info, scope, timestamp, message);
            let warn = line(Level::Warn, scope, timestamp, message);
            let error = line(Level::Error, scope, timestamp, message);
            let start = timestamp + " "@;
            let who = seq!['\u{1b}', '[', '3', '8', ';', '5', ';'] + text::decimal(
                scope.hue() as int,
            ) + seq!['m'] + "["@ + scope.name() + "]"@ + seq!['\u{1b}', '[', '0', 'm'];
            &&& info == start + who + " "@ + message
            &&& start.is_prefix_of(warn) && start.is_prefix_of(error)
            &&& warn.len() > info.len() && error.len() > info.len()
            &&& warn.skip(warn.len() - (who + " "@ + message).len()) == who + " "@ + message
            &&& error.skip(error.len() - (who + " "@ + message).len()) == who + " "@ + message
            &&& warn != error
        }),
{
    let start = timestamp + " "@;
    let who = tag(scope.name(), scope.hue());
    let end = who + " "@ + message;
    let info = line(Level::Info, scope, timestamp, message);
    let warn = line(Level::Warn, scope, timestamp, message);
    let error = line(Level::Error, scope, timestamp, message);
    let w = tag("WARN"@, WARN_COLOR);
    let e = tag("ERROR"@, ERROR_COLOR);
    reveal_strlit("WARN");
    reveal_strlit("ERROR");
    reveal_strlit("[");
    reveal_strlit("]");
    assert(info =~= start + who + " "@ + message);
    assert(warn =~= start + w + end);
    assert(error =~= start + e + end);
    assert(warn.take(start.len() as int) =~= start);
    assert(error.take(start.len() as int) =~= start);
    assert(text::decimal(220) =~= seq!['2', '2', '0'] && text::decimal(196) =~= seq![
        '1',
        '9',
        '6',
    ]) by {
        reveal_with_fuel(text::digits, 4);
    }
    assert(w.len() == 11 + 6 + 4 && e.len() == 11 + 7 + 4);
    assert(warn.skip((start.len() + w.len()) as int) =~= end);
    assert(error.skip((start.len() + e.len()) as int) =~= end);
    assert(warn.len() == start.len() + w.len() + end.len());
    assert(error.len() == start.len() + e.len() + end.len());
    assert(who =~= seq!['\u{1b}', '[', '3', '8', ';', '5', ';'] + text::decimal(scope.hue() as int)
        + seq!['m'] + "["@ + scope.name() + "]"@ + seq!['\u{1b}', '[', '0', 'm']);
}

} // verus!
