//! Colored, optionally located log lines.
use vstd::prelude::*;

verus! {

/// The severity of a log message, from the most to the least severe.
#[derive(Debug, Clone, Copy, PartialEq, Eq)]
pub enum Level {
    Error,
    Warn,
    Info,
    Debug,
    Trace,
}

/// The least severe level of the messages a logger shows, or none at all.
#[derive(Debug, Clone, Copy, PartialEq, Eq)]
pub enum LevelFilter {
    Off,
    Error,
    Warn,
    Info,
    Debug,
    Trace,
}

/// The terminal escape sequence that colors messages of `level`.
pub open spec fn ansi_color(level: Level) -> Seq<char> {
    match level {
        Level::Error => "\x1B[1;31m"@,
        Level::Warn => "\x1B[1;33m"@,
        Level::Info => "\x1B[1;34m"@,
        Level::Debug => "\x1B[1;35m"@,
        Level::Trace => "\x1B[1;36m"@,
    }
}

/// The name under which messages of `level` are shown.
pub open spec fn level_name(level: Level) -> Seq<char> {
    match level {
        Level::Error => "ERROR"@,
        Level::Warn => "WARN"@,
        Level::Info => "INFO"@,
        Level::Debug => "DEBUG"@,
        Level::Trace => "TRACE"@,
    }
}

/// Position of a level in the order from most to least severe, starting at 1.
pub open spec fn level_rank(level: Level) -> int {
    match level {
        Level::Error => 1,
        Level::Warn => 2,
        Level::Info => 3,
        Level::Debug => 4,
        Level::Trace => 5,
    }
}

/// The decimal digits of `n`, most significant first.
pub open spec fn decimal(n: nat) -> Seq<char>
    decreases n,
{
    if n < 10 {
        seq![digit_char(n)]
    } else {
        decimal(n / 10).push(digit_char(n % 10))
    }
}

/// The character of a decimal digit.
pub open spec fn digit_char(d: nat) -> char {
    (('0' as nat) + d) as char
}

/// The number a string of decimal digits stands for, most significant
/// digit first.
pub open spec fn digits_value(digits: Seq<char>) -> int
    decreases digits.len(),
{
    if digits.len() == 0 {
        0
    } else {
        10 * digits_value(digits.drop_last()) + (digits.last() as int - '0' as int)
    }
}

/// The decimal digits of a number read back give that number: every
/// character is a digit, and the first is not `0` unless the number is.
pub proof fn lemma_decimal_reads_back(n: nat)
    ensures
        digits_value(decimal(n)) == n,
        decimal(n).len() >= 1,
        forall|k: int| 0 <= k < decimal(n).len() ==> '0' <= #[trigger] decimal(n)[k] <= '9',
        n > 0 ==> decimal(n)[0] != '0',
    decreases n,
{
    if n >= 10 {
        lemma_decimal_reads_back(n / 10);
        let d = decimal(n);
        assert(d.drop_last() == decimal(n / 10));
        assert(d.last() == digit_char(n % 10));
        assert(digit_char(n % 10) as int == '0' as int + n % 10);
        assert(digits_value(d) == 10 * digits_value(d.drop_last()) + (d.last() as int - '0' as int));
        assert(n == 10 * (n / 10) + n % 10) by (nonlinear_arith);
        assert forall|k: int| 0 <= k < d.len() implies '0' <= #[trigger] d[k] <= '9' by {
            if k < d.len() - 1 {
                assert(d[k] == decimal(n / 10)[k]);
            }
        }
        assert(d[0] == decimal(n / 10)[0]);
    } else {
        assert(decimal(n) == seq![digit_char(n)]);
        assert(digit_char(n) as int == '0' as int + n);
        assert(decimal(n).drop_last() =~= Seq::<char>::empty());
        assert(digits_value(decimal(n)) == 10 * digits_value(decimal(n).drop_last()) + (decimal(n).last() as int
            - '0' as int));
    }
}

/// The line shown for a message: the level's color and name, the location
/// when it is shown (with `unknown` and `0` for what is not known), and the
/// message.
pub open spec fn record_line(
    show_location: bool,
    level: Level,
    file: Option<Seq<char>>,
    line: Option<u32>,
    message: Seq<char>,
) -> Seq<char> {
    let head = ansi_color(level) + level_name(level) + "\x1B[0;0m"@;
    if show_location {
        let file_name = match file {
            Some(f) => f,
            None => "unknown"@,
        };
        let line_number = match line {
            Some(l) => l as nat,
            None => 0nat,
        };
        head + " "@ + file_name + ":"@ + decimal(line_number) + " - "@ + message
    } else {
        head + " - "@ + message
    }
}

/// Calls `String::push`, which appends `c` to `s`.
#[verifier::external_body]
fn push_char(s: &mut String, c: char)
    ensures
        final(s)@ == old(s)@.push(c),
{
    s.push(c)
}

fn loglevel_ansi_color(level: Level) -> (r: &'static str)
    ensures
        r@ == ansi_color(level),
{
    match level {
        Level::Error => "\x1B[1;31m",
        Level::Warn => "\x1B[1;33m",
        Level::Info => "\x1B[1;34m",
        Level::Debug => "\x1B[1;35m",
        Level::Trace => "\x1B[1;36m",
    }
}

fn level_str(level: Level) -> (r: &'static str)
    ensures
        r@ == level_name(level),
{
    match level {
        Level::Error => "ERROR",
        Level::Warn => "WARN",
        Level::Info => "INFO",
        Level::Debug => "DEBUG",
        Level::Trace => "TRACE",
    }
}

/// Appends the decimal digits of `n` to `s`.
pub(crate) fn push_decimal(s: &mut String, n: u32)
    ensures
        final(s)@ == old(s)@ + decimal(n as nat),
    decreases n,
{
    if n >= 10 {
        push_decimal(s, n / 10);
    }
    let d = n % 10;
    let c = ('0' as u8 + d as u8) as char;
    assert(c == digit_char((n % 10) as nat));
    push_char(s, c);
    assert(old(s)@ + decimal(n as nat) =~= s@) by {
        if n >= 10 {
            assert(decimal(n as nat) == decimal((n / 10) as nat).push(digit_char((n % 10) as nat)));
        }
    }
}

pub struct Logger {
    /// include the file:line of the log call
    pub show_location: bool,
    /// Maximum log level visible. Useful for removing debug and trace calls in release builds
    pub max_level: LevelFilter,
}

impl Default for Logger {
    fn default() -> (l: Self)
        ensures
            l.show_location,
            l.max_level == LevelFilter::Debug,
    {
        Logger { show_location: true, max_level: LevelFilter::Debug }
    }
}

impl Logger {
    /// Messages of `level` go to the error stream, all others to the output
    /// stream: those of a level at or below warnings in severity.
    pub fn writes_to_stderr(level: Level) -> (r: bool)
        ensures
            r == (level_rank(level) >= level_rank(Level::Warn)),
    {
        match level {
            Level::Error => false,
            _ => true,
        }
    }

    /// The line shown for a message of `level`, logged at `file`:`line`.
    pub fn format_record(&self, level: Level, file: Option<&str>, line: Option<u32>, message: &str) -> (r: String)
        ensures
            r@ == record_line(
                self.show_location,
                level,
                match file { Some(f) => Some(f@), None => None },
                line,
                message@,
            ),
    {
        let mut out = String::new();
        out.append(loglevel_ansi_color(level));
        out.append(level_str(level));
        out.append("\x1B[0;0m");
        if self.show_location {
            out.append(" ");
            match file {
                Some(f) => out.append(f),
                None => out.append("unknown"),
            }
            out.append(":");
            match line {
                Some(l) => push_decimal(&mut out, l),
                None => push_decimal(&mut out, 0),
            }
        }
        out.append(" - ");
        out.append(message);
        out
    }
}

} // verus!
