//! Lines for a terminal: the parts of a line are painted, and put together
//! as in plain text.

use crate::diff::{ChangeType, DiffStats};
use crate::output::{format_lines, lines_view, report};
use colored::Colorize;
use vstd::prelude::*;

verus! {

/// The sequence that ends a style: escape, `[0m`.
pub open spec fn reset_sequence() -> Seq<char> {
    seq!['\x1B', '[', '0', 'm']
}

/// Whether the text holds the sequence that ends a style.
pub open spec fn has_reset(text: Seq<char>) -> bool {
    exists|i: int| 0 <= i && i + 4 <= text.len() && #[trigger] text.subrange(i, i + 4) == reset_sequence()
}

/// `out` is `text` painted: the text itself where colours are off, else the
/// text between a style sequence and the reset sequence. Whether colours
/// are on is for the environment to say.
pub open spec fn painted(text: Seq<char>, out: Seq<char>) -> bool {
    out == text || exists|style: Seq<char>| out == style + text + reset_sequence()
}

/// `Colorize::green` on a string slice, written out: the text in green. The
/// result is the text painted, provided that the text holds no reset
/// sequence of its own, after each of which the style would be set again.
#[verifier::external_body]
fn green(text: &str) -> (r: String)
    ensures
        !has_reset(text@) ==> painted(text@, r@),
{
    text.green().to_string()
}

/// `Colorize::bright_green` on a string slice, written out; as for `green`.
#[verifier::external_body]
fn bright_green(text: &str) -> (r: String)
    ensures
        !has_reset(text@) ==> painted(text@, r@),
{
    text.bright_green().to_string()
}

/// `Colorize::red` on a string slice, written out; as for `green`.
#[verifier::external_body]
fn red(text: &str) -> (r: String)
    ensures
        !has_reset(text@) ==> painted(text@, r@),
{
    text.red().to_string()
}

/// `Colorize::bright_red` on a string slice, written out; as for `green`.
#[verifier::external_body]
fn bright_red(text: &str) -> (r: String)
    ensures
        !has_reset(text@) ==> painted(text@, r@),
{
    text.bright_red().to_string()
}

/// `Colorize::yellow` on a string slice, written out; as for `green`.
#[verifier::external_body]
fn yellow(text: &str) -> (r: String)
    ensures
        !has_reset(text@) ==> painted(text@, r@),
{
    text.yellow().to_string()
}

/// `Colorize::bright_yellow` on a string slice, written out; as for `green`.
#[verifier::external_body]
fn bright_yellow(text: &str) -> (r: String)
    ensures
        !has_reset(text@) ==> painted(text@, r@),
{
    text.bright_yellow().to_string()
}

/// `Colorize::dimmed` on a string slice, written out; as for `green`.
#[verifier::external_body]
fn dimmed(text: &str) -> (r: String)
    ensures
        !has_reset(text@) ==> painted(text@, r@),
{
    text.dimmed().to_string()
}

/// The mark that stands for a kind of change.
pub open spec fn mark_of(kind: ChangeType) -> Seq<char> {
    match kind {
        ChangeType::Added => "+"@,
        ChangeType::Removed => "-"@,
        ChangeType::Modified => "\u{2022}"@,
        ChangeType::Unchanged => " "@,
    }
}

/// The line for one change, from its parts as they are written: the mark,
/// the path, and the value, or the old and the new value with an arrow
/// between them. What the kind does not show is not looked at.
pub open spec fn terminal_line(
    kind: ChangeType,
    mark: Seq<char>,
    path: Seq<char>,
    old_value: Seq<char>,
    arrow: Seq<char>,
    new_value: Seq<char>,
) -> Seq<char> {
    match kind {
        ChangeType::Added => mark + " "@ + path + ": "@ + new_value,
        ChangeType::Removed => mark + " "@ + path + ": "@ + old_value,
        ChangeType::Modified => mark + " "@ + path + ": "@ + old_value + " "@ + arrow + " "@
            + new_value,
        ChangeType::Unchanged => "  "@ + path + ": "@ + old_value,
    }
}

/// Puts the parts of a line together.
pub fn assemble_line(
    kind: ChangeType,
    mark: &str,
    path: &str,
    old_value: &str,
    arrow: &str,
    new_value: &str,
) -> (r: String)
    ensures
        r@ == terminal_line(kind, mark@, path@, old_value@, arrow@, new_value@),
{
    let mut out = String::new();
    match kind {
        ChangeType::Added => {
            out.append(mark);
            out.append(" ");
            out.append(path);
            out.append(": ");
            out.append(new_value);
        },
        ChangeType::Removed => {
            out.append(mark);
            out.append(" ");
            out.append(path);
            out.append(": ");
            out.append(old_value);
        },
        ChangeType::Modified => {
            out.append(mark);
            out.append(" ");
            out.append(path);
            out.append(": ");
            out.append(old_value);
            out.append(" ");
            out.append(arrow);
            out.append(" ");
            out.append(new_value);
        },
        ChangeType::Unchanged => {
            out.append("  ");
            out.append(path);
            out.append(": ");
            out.append(old_value);
        },
    }
    assert(out@ =~= terminal_line(kind, mark@, path@, old_value@, arrow@, new_value@));
    out
}

/// A text that holds a reset sequence is painted in a way of which nothing
/// is said here; any other text is painted as `painted` says.
pub open spec fn painted_or_reset(text: Seq<char>, out: Seq<char>) -> bool {
    has_reset(text) || painted(text, out)
}

/// The line for one change on a terminal: the line of its parts, each
/// painted in the colour of the kind: green for an addition, red for a
/// removal, yellow for a modification, dimmed for what did not change.
pub fn format_change_terminal(kind: ChangeType, path: &str, old_value: &str, new_value: &str) -> (r:
    String)
    ensures
        exists|mark: Seq<char>, p: Seq<char>, o: Seq<char>, arrow: Seq<char>, n: Seq<char>|
            {
                &&& painted_or_reset(mark_of(kind), mark)
                &&& painted_or_reset(path@, p)
                &&& painted_or_reset(old_value@, o)
                &&& painted_or_reset("\u{2192}"@, arrow)
                &&& painted_or_reset(new_value@, n)
                &&& r@ == #[trigger] terminal_line(kind, mark, p, o, arrow, n)
            },
{
    match kind {
        ChangeType::Added => {
            let mark = bright_green("+");
            let p = green(path);
            let n = green(new_value);
            let r = assemble_line(kind, mark.as_str(), p.as_str(), n.as_str(), "", n.as_str());
            proof {
                let any = "\u{2192}"@;
                assert(painted(any, any));
                assert(painted(old_value@, old_value@));
                assert(r@ == terminal_line(kind, mark@, p@, old_value@, any, n@));
            }
            r
        },
        ChangeType::Removed => {
            let mark = bright_red("-");
            let p = red(path);
            let o = red(old_value);
            let r = assemble_line(kind, mark.as_str(), p.as_str(), o.as_str(), "", o.as_str());
            proof {
                let any = "\u{2192}"@;
                assert(painted(any, any));
                assert(painted(new_value@, new_value@));
                assert(r@ == terminal_line(kind, mark@, p@, o@, any, new_value@));
            }
            r
        },
        ChangeType::Modified => {
            let mark = bright_yellow("\u{2022}");
            let p = yellow(path);
            let o = yellow(old_value);
            let arrow = bright_yellow("\u{2192}");
            let n = yellow(new_value);
            assemble_line(kind, mark.as_str(), p.as_str(), o.as_str(), arrow.as_str(), n.as_str())
        },
        ChangeType::Unchanged => {
            let p = dimmed(path);
            let o = dimmed(old_value);
            let r = assemble_line(kind, " ", p.as_str(), o.as_str(), "", o.as_str());
            proof {
                let any = "\u{2192}"@;
                assert(painted(any, any));
                assert(painted(new_value@, new_value@));
                assert(painted(" "@, " "@));
                assert(r@ == terminal_line(kind, " "@, p@, o@, any, new_value@));
            }
            r
        },
    }
}

/// The report of a diff on a terminal: the lines and the summary as in
/// plain text; where there is no line, the remark that nothing changed,
/// dimmed.
pub fn format_terminal(lines: &[String], stats: &DiffStats) -> (r: String)
    ensures
        lines@.len() > 0 ==> r@ == report(lines_view(lines@), *stats),
        lines@.len() == 0 ==> painted_or_reset("No changes detected."@, r@),
{
    if lines.len() == 0 {
        dimmed("No changes detected.")
    } else {
        format_lines(lines, stats)
    }
}

} // verus!
