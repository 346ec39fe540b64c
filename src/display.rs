//! Rendering whole frames: timestamp, level and message.
use crate::decoder::{Arg, Frame};
use crate::render::{format_args, message_text, FloatBits, FloatTable};
use colored::Colorize;
use vstd::prelude::*;
use vstd::string::StringExecFns;

verus! {

/// The label of a level.
pub open spec fn level_label(l: defmt_parser::Level) -> Seq<char> {
    match l {
        defmt_parser::Level::Trace => seq!['T', 'R', 'A', 'C', 'E'],
        defmt_parser::Level::Debug => seq!['D', 'E', 'B', 'U', 'G'],
        defmt_parser::Level::Info => seq!['I', 'N', 'F', 'O'],
        defmt_parser::Level::Warn => seq!['W', 'A', 'R', 'N'],
        defmt_parser::Level::Error => seq!['E', 'R', 'R', 'O', 'R'],
    }
}

/// The terminal style code of a level's label: dim, none, green, yellow, red.
pub open spec fn level_style(l: defmt_parser::Level) -> Seq<char> {
    match l {
        defmt_parser::Level::Trace => seq!['2'],
        defmt_parser::Level::Debug => seq![],
        defmt_parser::Level::Info => seq!['3', '2'],
        defmt_parser::Level::Warn => seq!['3', '3'],
        defmt_parser::Level::Error => seq!['3', '1'],
    }
}

/// `s` styled with SGR code `code`, then reset.
pub open spec fn sgr(code: Seq<char>, s: Seq<char>) -> Seq<char> {
    seq!['\u{1b}', '['] + code + seq!['m'] + s + seq!['\u{1b}', '[', '0', 'm']
}

/// Whether `t` is label `s` as a colouring call may render it: styled with
/// `code` where the terminal takes colours, plain where it does not.
pub open spec fn painted(s: Seq<char>, code: Seq<char>, t: Seq<char>) -> bool {
    t == s || (code.len() > 0 && t == sgr(code, s))
}

/// Relies on `colored::Colorize::dimmed` and its `Display`: the text, styled
/// with SGR 2 where colouring is on (it depends on the environment).
#[verifier::external_body]
fn dimmed(s: &str) -> (r: String)
    requires
        !s@.contains('\u{1b}'),
    ensures
        painted(s@, seq!['2'], r@),
{
    s.dimmed().to_string()
}

/// Relies on `colored::Colorize::normal` and its `Display`: no style, so the
/// text as it is.
#[verifier::external_body]
fn normal(s: &str) -> (r: String)
    requires
        !s@.contains('\u{1b}'),
    ensures
        painted(s@, seq![], r@),
{
    s.normal().to_string()
}

/// Relies on `colored::Colorize::green` and its `Display`: the text, styled
/// with SGR 32 where colouring is on.
#[verifier::external_body]
fn green(s: &str) -> (r: String)
    requires
        !s@.contains('\u{1b}'),
    ensures
        painted(s@, seq!['3', '2'], r@),
{
    s.green().to_string()
}

/// Relies on `colored::Colorize::yellow` and its `Display`: the text, styled
/// with SGR 33 where colouring is on.
#[verifier::external_body]
fn yellow(s: &str) -> (r: String)
    requires
        !s@.contains('\u{1b}'),
    ensures
        painted(s@, seq!['3', '3'], r@),
{
    s.yellow().to_string()
}

/// Relies on `colored::Colorize::red` and its `Display`: the text, styled
/// with SGR 31 where colouring is on.
#[verifier::external_body]
fn red(s: &str) -> (r: String)
    requires
        !s@.contains('\u{1b}'),
    ensures
        painted(s@, seq!['3', '1'], r@),
{
    s.red().to_string()
}

/// The label of `level`, coloured if `colored`.
fn level_text(level: defmt_parser::Level, colored: bool) -> (r: String)
    ensures
        colored ==> painted(level_label(level), level_style(level), r@),
        !colored ==> r@ == level_label(level),
{
    proof {
        reveal_strlit("TRACE");
        reveal_strlit("DEBUG");
        reveal_strlit("INFO");
        reveal_strlit("WARN");
        reveal_strlit("ERROR");
    }
    let label = match level {
        defmt_parser::Level::Trace => "TRACE",
        defmt_parser::Level::Debug => "DEBUG",
        defmt_parser::Level::Info => "INFO",
        defmt_parser::Level::Warn => "WARN",
        defmt_parser::Level::Error => "ERROR",
    };
    assert(label@ == level_label(level));
    assert(!label@.contains('\u{1b}'));
    if !colored {
        return String::from_str(label);
    }
    match level {
        defmt_parser::Level::Trace => dimmed(label),
        defmt_parser::Level::Debug => normal(label),
        defmt_parser::Level::Info => green(label),
        defmt_parser::Level::Warn => yellow(label),
        defmt_parser::Level::Error => red(label),
    }
}

/// A format string with its arguments, ready to be rendered.
pub struct DisplayMessage<'t> {
    pub format: &'t str,
    pub args: &'t Vec<Arg<'t>>,
    pub bools: &'t Vec<bool>,
}

impl<'t> DisplayMessage<'t> {
    /// The message as text; `floats` holds the texts of floating-point
    /// arguments.
    pub fn to_string_with(&self, floats: &FloatTable) -> (r: String)
        ensures
            r@ == message_text(self.format@, self.args@, None, self.bools@, floats.texts@),
    {
        format_args(self.format, self.args, None, self.bools, floats)
    }
}

/// A frame with its timestamp and level, ready to be rendered.
pub struct DisplayFrame<'t> {
    pub frame: &'t Frame<'t>,
    pub colored: bool,
}

/// The text of a frame, given the text of its level label and the texts of
/// floating-point bit patterns: the timestamp and a space if there is one,
/// the label, a space and the message.
pub open spec fn frame_text(frame: Frame, label: Seq<char>, floats: Seq<(FloatBits, String)>) -> Seq<char> {
    let ts = match frame.timestamp_format {
        Some(f) => message_text(f@, frame.timestamp_args@, None, frame.bools@, floats) + seq![' '],
        None => Seq::empty(),
    };
    ts + label + seq![' '] + message_text(frame.format@, frame.args@, None, frame.bools@, floats)
}

impl<'t> DisplayFrame<'t> {
    /// The frame as text; `floats` holds the texts of floating-point
    /// arguments.
    pub fn to_string_with(&self, floats: &FloatTable) -> (r: String)
        ensures
            exists|label: Seq<char>|
                #![trigger frame_text(*self.frame, label, floats.texts@)]
                {
                    &&& (self.colored ==> painted(
                        level_label(self.frame.level),
                        level_style(self.frame.level),
                        label,
                    ))
                    &&& (!self.colored ==> label == level_label(self.frame.level))
                    &&& r@ == frame_text(*self.frame, label, floats.texts@)
                },
    {
        let frame = self.frame;
        let label = level_text(frame.level, self.colored);
        let mut out = String::new();
        match frame.timestamp_format {
            Some(f) => {
                let t = format_args(f, &frame.timestamp_args, None, &frame.bools, floats);
                out.append(t.as_str());
                out.append(" ");
            },
            None => {},
        }
        out.append(label.as_str());
        out.append(" ");
        let m = format_args(frame.format, &frame.args, None, &frame.bools, floats);
        out.append(m.as_str());
        proof {
            reveal_strlit(" ");
            assert(out@ =~= frame_text(*frame, label@, floats.texts@));
        }
        out
    }
}

impl<'t> Frame<'t> {
    /// The frame with its timestamp and level.
    pub fn display(&'t self, colored: bool) -> (r: DisplayFrame<'t>)
        ensures
            r.frame == self,
            r.colored == colored,
    {
        DisplayFrame { frame: self, colored }
    }

    /// The timestamp, if the frame has one.
    pub fn display_timestamp(&'t self) -> (r: Option<DisplayMessage<'t>>)
        ensures
            match self.timestamp_format {
                Some(f) => r matches Some(m) && m.format == f && m.args == &self.timestamp_args
                    && m.bools == &self.bools,
                None => r is None,
            },
    {
        match self.timestamp_format {
            Some(f) => Some(DisplayMessage { format: f, args: &self.timestamp_args, bools: &self.bools }),
            None => None,
        }
    }

    /// The message, without timestamp and level.
    pub fn display_message(&'t self) -> (r: DisplayMessage<'t>)
        ensures
            r.format == self.format,
            r.args == &self.args,
            r.bools == &self.bools,
    {
        DisplayMessage { format: self.format, args: &self.args, bools: &self.bools }
    }
}

} // verus!
