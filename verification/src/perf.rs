//! The lines of the performance log.

use vstd::prelude::*;
use crate::text::{concat2, concat3, decimal, decimal_string, push_char, usize_string};

verus! {

/// Where the performance log is written, relative to the project.
pub const PERF_LOG_PATH: &'static str = ".concerto/logs/perf.log";

/// The environment variable that turns the performance log on.
pub const PERF_ENV: &'static str = "CONCERTO_DEBUG_PERF";

/// `n` spaces.
pub open spec fn spaces(n: nat) -> Seq<char> {
    Seq::new(n, |i: int| ' ')
}

/// `s` followed by spaces up to `width` characters.
pub open spec fn pad_right(s: Seq<char>, width: nat) -> Seq<char> {
    if s.len() >= width {
        s
    } else {
        s + spaces((width - s.len()) as nat)
    }
}

/// `s` after spaces up to `width` characters.
pub open spec fn pad_left(s: Seq<char>, width: nat) -> Seq<char> {
    if s.len() >= width {
        s
    } else {
        spaces((width - s.len()) as nat) + s
    }
}

/// Appends `n` spaces.
fn push_spaces(out: &mut String, n: usize)
    ensures
        final(out)@ == old(out)@ + spaces(n as nat),
{
    let ghost start = out@;
    let mut i: usize = 0;
    while i < n
        invariant
            i <= n,
            out@ == start + spaces(i as nat),
        decreases n - i,
    {
        push_char(out, ' ');
        assert(spaces((i + 1) as nat) =~= spaces(i as nat).push(' '));
        i = i + 1;
    }
}

/// Whether the performance log is on for the value of its environment variable.
pub fn perf_enabled(value: Option<&str>) -> (r: bool)
    ensures
        r == match value {
            Some(v) => v@ != "0"@,
            None => false,
        },
{
    match value {
        Some(v) => !crate::text::str_eq(v, "0"),
        None => false,
    }
}

/// The line opening a run in the log.
pub fn start_line(started_at: &str) -> (r: String)
    ensures
        r@ == "\n=== concerto install run "@ + started_at@ + " ===\n"@,
{
    concat3("\n=== concerto install run ", started_at, " ===\n")
}

/// The line of one timed step: the event padded to 24 characters, the milliseconds
/// right-aligned in 6, then each field as `  name=value`.
pub fn perf_line(event: &str, millis: u128, fields: &Vec<(String, String)>) -> (r: String)
    ensures
        r@ == pad_right(event@, 24) + " "@ + pad_left(decimal(millis as nat), 6) + "ms"@
            + fields_text(fields@) + "\n"@,
{
    let event_chars = crate::text::chars_of(event);
    let mut line = crate::text::owned(event);
    if event_chars.len() < 24 {
        push_spaces(&mut line, 24 - event_chars.len());
    }
    line.append(" ");
    let digits = decimal_string(millis);
    let digit_chars = crate::text::chars_of(digits.as_str());
    if digit_chars.len() < 6 {
        push_spaces(&mut line, 6 - digit_chars.len());
    }
    line.append(digits.as_str());
    line.append("ms");
    let ghost head = line@;
    let mut i: usize = 0;
    while i < fields.len()
        invariant
            i <= fields@.len(),
            line@ == head + fields_text(fields@.take(i as int)),
        decreases fields@.len() - i,
    {
        assert(fields@.take(i + 1).drop_last() =~= fields@.take(i as int));
        line.append("  ");
        line.append(fields[i].0.as_str());
        line.append("=");
        line.append(fields[i].1.as_str());
        i = i + 1;
    }
    assert(fields@.take(fields@.len() as int) =~= fields@);
    line.append("\n");
    line
}

/// The fields of a line, each as `  name=value`.
pub open spec fn fields_text(fields: Seq<(String, String)>) -> Seq<char>
    decreases fields.len(),
{
    if fields.len() == 0 {
        Seq::empty()
    } else {
        fields_text(fields.drop_last()) + "  "@ + fields.last().0@ + "="@ + fields.last().1@
    }
}

/// The line closing a run in the log.
pub fn finish_line(finished_at: &str, millis: u128, package_count: usize) -> (r: String)
    ensures
        r@ == "=== concerto install done "@ + finished_at@ + " total="@ + decimal(millis as nat)
            + "ms packages="@ + decimal(package_count as nat) + " ===\n"@,
{
    let mut line = concat3("=== concerto install done ", finished_at, " total=");
    let total = decimal_string(millis);
    line.append(total.as_str());
    line.append("ms packages=");
    let count = usize_string(package_count);
    line.append(count.as_str());
    line.append(" ===\n");
    line
}

} // verus!
