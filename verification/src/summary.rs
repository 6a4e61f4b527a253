//! What a checked merge prints: a line for each log, and how many came through.
use vstd::prelude::*;

use crate::check::CheckResult;
use crate::text;
use crate::text::{chars_of, push_decimal, push_padding};

verus! {

/// `s` with blanks behind it up to a width.
pub open spec fn left_aligned(s: Seq<char>, width: nat) -> Seq<char> {
    s + text::padding(' ', s.len(), width)
}

/// The line for one log.
pub open spec fn result_line(date: Seq<char>, node: Seq<char>, ok: bool, lines: nat) -> Seq<char> {
    "  "@ + date + "  "@ + left_aligned(node, 14) + seq![' '] + (if ok {
        "OK  "@
    } else {
        "FAIL"@
    }) + "  "@ + text::decimal(lines) + " lines"@
}

/// How many of the logs came through.
pub open spec fn summary_line(ok: nat, total: nat) -> Seq<char> {
    "check: "@ + text::decimal(ok) + seq!['/'] + text::decimal(total)
        + " files round-trip identical"@
}

/// Why the check fails.
pub open spec fn failure_line(failed: nat) -> Seq<char> {
    text::decimal(failed) + " file(s) failed the round-trip check"@
}

fn push_left_aligned(out: &mut String, s: &str, width: usize)
    ensures
        final(out)@ == old(out)@ + left_aligned(s@, width as nat),
{
    out.append(s);
    push_padding(out, ' ', chars_of(s).len(), width);
    proof {
        assert(out@ =~= old(out)@ + left_aligned(s@, width as nat));
    }
}

/// The line for one log.
pub fn render_result(date: &str, result: &CheckResult) -> (r: String)
    ensures
        r@ == result_line(date@, result.node@, result.ok, result.lines as nat),
{
    let mut out: String = String::new();
    out.append("  ");
    out.append(date);
    out.append("  ");
    push_left_aligned(&mut out, result.node.as_str(), 14);
    out.push(' ');
    if result.ok {
        out.append("OK  ");
    } else {
        out.append("FAIL");
    }
    out.append("  ");
    push_decimal(&mut out, result.lines);
    out.append(" lines");
    proof {
        assert(out@ =~= result_line(date@, result.node@, result.ok, result.lines as nat));
    }
    out
}

/// Counts the logs and those that came through.
#[derive(Debug, Clone, Copy)]
pub struct Tally {
    total: u64,
    ok: u64,
}

impl Tally {
    pub closed spec fn total(&self) -> nat {
        self.total as nat
    }

    pub closed spec fn ok(&self) -> nat {
        self.ok as nat
    }

    /// No more came through than there are.
    pub open spec fn well_formed(&self) -> bool {
        self.ok() <= self.total() <= u64::MAX
    }

    pub fn new() -> (r: Tally)
        ensures
            r.well_formed(),
            r.total() == 0,
            r.ok() == 0,
    {
        Tally { total: 0, ok: 0 }
    }

    /// Whether another log can be counted.
    pub fn has_room(&self) -> (r: bool)
        ensures
            r == (self.total() < u64::MAX),
    {
        self.total < u64::MAX
    }

    /// Counts one more log.
    pub fn record(&mut self, ok: bool)
        requires
            old(self).well_formed(),
            old(self).total() < u64::MAX,
        ensures
            final(self).well_formed(),
            final(self).total() == old(self).total() + 1,
            final(self).ok() == old(self).ok() + if ok {
                1int
            } else {
                0
            },
    {
        self.total += 1;
        if ok {
            self.ok += 1;
        }
    }

    /// How many of the logs came through.
    pub fn render_summary(&self) -> (r: String)
        ensures
            r@ == summary_line(self.ok(), self.total()),
    {
        let mut out: String = String::new();
        out.append("check: ");
        push_decimal(&mut out, self.ok);
        out.push('/');
        push_decimal(&mut out, self.total);
        out.append(" files round-trip identical");
        proof {
            assert(out@ =~= summary_line(self.ok(), self.total()));
        }
        out
    }

    /// Why the check fails, where it does: not all of the logs came through.
    pub fn render_failure(&self) -> (r: Option<String>)
        requires
            self.well_formed(),
        ensures
            r is Some <==> self.ok() != self.total(),
            r matches Some(s) ==> s@ == failure_line((self.total() - self.ok()) as nat),
    {
        if self.ok == self.total {
            return None;
        }
        let mut out: String = String::new();
        push_decimal(&mut out, self.total - self.ok);
        out.append(" file(s) failed the round-trip check");
        proof {
            assert(out@ =~= failure_line((self.total() - self.ok()) as nat));
        }
        Some(out)
    }
}

}
