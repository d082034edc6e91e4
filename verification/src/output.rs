//! What a renderer of diffs needs that is the same for every output format:
//! the options, the choice of the changes to show, the display form of a
//! path and the summary line.

use crate::diff::{path_view, Change, ChangeType, DiffStats};
use crate::text::{char_is_whitespace, decimal, is_whitespace, push_decimal};
use vstd::prelude::*;

verus! {

/// The form in which a diff is written out.
#[derive(Debug, Clone, Copy, PartialEq, Eq, Structural)]
pub enum OutputFormat {
    /// Coloured text for a terminal.
    Terminal,
    /// A JSON document.
    Json,
    /// Text without colours.
    Plain,
}

/// What is shown, and how much of each value.
#[derive(Debug, Clone, Copy)]
pub struct OutputOptions {
    /// Leave out what did not change.
    pub compact: bool,
    /// Show values in full.
    pub show_values: bool,
    /// The length beyond which a value is cut short.
    pub max_value_length: usize,
    /// The number of unchanged lines shown around a change.
    pub context_lines: usize,
}

/// The options that `OutputOptions::default()` gives.
pub open spec fn default_options() -> OutputOptions {
    OutputOptions { compact: true, show_values: false, max_value_length: 80, context_lines: 0 }
}

impl Default for OutputOptions {
    fn default() -> (r: OutputOptions)
        ensures
            r == default_options(),
    {
        OutputOptions { compact: true, show_values: false, max_value_length: 80, context_lines: 0 }
    }
}

/// Whether a change of this kind is shown: all are, but the unchanged in
/// compact mode.
pub open spec fn shown(kind: ChangeType, options: OutputOptions) -> bool {
    !options.compact || kind != ChangeType::Unchanged
}

/// Whether the change is shown under the options.
pub fn should_show_change(change: &Change, options: &OutputOptions) -> (r: bool)
    ensures
        r == shown(change@.change_type, *options),
{
    if options.compact {
        match change.change_type {
            ChangeType::Unchanged => false,
            _ => true,
        }
    } else {
        true
    }
}

/// Whether a path segment is the marker of an array index.
pub open spec fn is_index_segment(segment: Seq<char>) -> bool {
    segment.len() > 0 && segment[0] == '['
}

/// The first `k` segments of a path in display form: keys are joined by
/// dots, and an index follows what stands before it directly.
pub open spec fn joined_path(path: Seq<Seq<char>>, k: int) -> Seq<char>
    decreases k,
{
    if k <= 0 {
        Seq::empty()
    } else if is_index_segment(path[k - 1]) || k == 1 {
        joined_path(path, k - 1) + path[k - 1]
    } else {
        joined_path(path, k - 1) + seq!['.'] + path[k - 1]
    }
}

/// The display form of a path; the empty path is the root.
pub open spec fn format_path_spec(path: Seq<Seq<char>>) -> Seq<char> {
    if path.len() == 0 {
        "(root)"@
    } else {
        joined_path(path, path.len() as int)
    }
}

/// The display form of a path.
pub fn format_path(path: &[String]) -> (r: String)
    ensures
        r@ == format_path_spec(path_view(path@)),
{
    if path.len() == 0 {
        return String::from_str("(root)");
    }
    let ghost p = path_view(path@);
    let mut out = String::new();
    let mut i: usize = 0;
    while i < path.len()
        invariant
            i <= path.len(),
            p == path_view(path@),
            out@ == joined_path(p, i as int),
        decreases path.len() - i,
    {
        let segment = path[i].as_str();
        assert(p[i as int] == segment@);
        let is_index = !segment.is_empty() && segment.get_char(0) == '[';
        if !is_index && i > 0 {
            out.push('.');
        }
        out.append(segment);
        proof {
            let before = joined_path(p, i as int);
            assert(before.push('.') + segment@ =~= before + seq!['.'] + segment@);
        }
        i += 1;
    }
    out
}

/// One part of the summary: a count and what it counts.
pub open spec fn summary_part(count: nat, label: Seq<char>) -> Seq<char> {
    decimal(count) + seq![' '] + label
}

/// The parts of the summary: one for each count that is not zero.
pub open spec fn summary_parts(stats: DiffStats) -> Seq<Seq<char>> {
    (if stats.added > 0 {
        seq![summary_part(stats.added as nat, "added"@)]
    } else {
        Seq::empty()
    }) + (if stats.removed > 0 {
        seq![summary_part(stats.removed as nat, "removed"@)]
    } else {
        Seq::empty()
    }) + (if stats.modified > 0 {
        seq![summary_part(stats.modified as nat, "modified"@)]
    } else {
        Seq::empty()
    }) + (if stats.unchanged > 0 {
        seq![summary_part(stats.unchanged as nat, "unchanged"@)]
    } else {
        Seq::empty()
    })
}

/// The parts, separated by a comma and a space.
pub open spec fn joined_parts(parts: Seq<Seq<char>>) -> Seq<char>
    decreases parts.len(),
{
    if parts.len() == 0 {
        Seq::empty()
    } else if parts.len() == 1 {
        parts[0]
    } else {
        joined_parts(parts.drop_last()) + ", "@ + parts.last()
    }
}

/// The summary line of a diff.
pub open spec fn format_summary_spec(stats: DiffStats) -> Seq<char> {
    if stats.added + stats.removed + stats.modified == 0 {
        "Summary: No changes"@
    } else {
        "Summary: "@ + joined_parts(summary_parts(stats))
    }
}

/// Appends one part to the summary, after a separator where it is not the
/// first.
fn push_part(
    out: &mut String,
    count: usize,
    label: &str,
    first: bool,
    Ghost(parts): Ghost<Seq<Seq<char>>>,
)
    requires
        old(out)@ == "Summary: "@ + joined_parts(parts),
        first == (parts.len() == 0),
    ensures
        final(out)@ == "Summary: "@ + joined_parts(
            parts.push(summary_part(count as nat, label@)),
        ),
{
    let ghost start = out@;
    let ghost part = summary_part(count as nat, label@);
    let ghost longer = parts.push(part);
    proof {
        assert(longer.drop_last() =~= parts);
        assert(longer.last() == part);
    }
    if !first {
        out.append(", ");
    }
    push_decimal(out, count);
    out.push(' ');
    out.append(label);
    proof {
        if parts.len() == 0 {
            assert(out@ =~= "Summary: "@ + part);
        } else {
            assert(out@ =~= "Summary: "@ + (joined_parts(parts) + ", "@ + part));
        }
    }
}

/// The summary line of a diff.
pub fn format_summary(stats: &DiffStats) -> (r: String)
    ensures
        r@ == format_summary_spec(*stats),
{
    if stats.is_empty() {
        return String::from_str("Summary: No changes");
    }
    let mut out = String::from_str("Summary: ");
    let ghost mut parts: Seq<Seq<char>> = Seq::empty();
    let mut first = true;
    proof {
        assert(out@ =~= "Summary: "@ + joined_parts(parts));
    }
    if stats.added > 0 {
        push_part(&mut out, stats.added, "added", first, Ghost(parts));
        first = false;
        proof {
            parts = parts.push(summary_part(stats.added as nat, "added"@));
        }
    }
    if stats.removed > 0 {
        push_part(&mut out, stats.removed, "removed", first, Ghost(parts));
        first = false;
        proof {
            parts = parts.push(summary_part(stats.removed as nat, "removed"@));
        }
    }
    if stats.modified > 0 {
        push_part(&mut out, stats.modified, "modified", first, Ghost(parts));
        first = false;
        proof {
            parts = parts.push(summary_part(stats.modified as nat, "modified"@));
        }
    }
    if stats.unchanged > 0 {
        push_part(&mut out, stats.unchanged, "unchanged", first, Ghost(parts));
        first = false;
        proof {
            parts = parts.push(summary_part(stats.unchanged as nat, "unchanged"@));
        }
    }
    proof {
        assert(parts =~= summary_parts(*stats));
    }
    out
}

/// The line for one change in plain text: a mark for its kind, the display
/// form of its path, and its value, or its old and new value with an arrow
/// between them. `old_value` and `new_value` are the previews of the two
/// values; the one that the kind does not show is not looked at.
pub open spec fn change_line(
    kind: ChangeType,
    path: Seq<char>,
    old_value: Seq<char>,
    new_value: Seq<char>,
) -> Seq<char> {
    match kind {
        ChangeType::Added => "+ "@ + path + ": "@ + new_value,
        ChangeType::Removed => "- "@ + path + ": "@ + old_value,
        ChangeType::Modified => "\u{2022} "@ + path + ": "@ + old_value + " \u{2192} "@ + new_value,
        ChangeType::Unchanged => "  "@ + path + ": "@ + old_value,
    }
}

/// The line for one change in plain text.
pub fn format_change_plain(kind: ChangeType, path: &str, old_value: &str, new_value: &str) -> (r:
    String)
    ensures
        r@ == change_line(kind, path@, old_value@, new_value@),
{
    let mut out = String::new();
    match kind {
        ChangeType::Added => {
            out.append("+ ");
            out.append(path);
            out.append(": ");
            out.append(new_value);
            assert(out@ =~= change_line(kind, path@, old_value@, new_value@));
        },
        ChangeType::Removed => {
            out.append("- ");
            out.append(path);
            out.append(": ");
            out.append(old_value);
            assert(out@ =~= change_line(kind, path@, old_value@, new_value@));
        },
        ChangeType::Modified => {
            out.append("\u{2022} ");
            out.append(path);
            out.append(": ");
            out.append(old_value);
            out.append(" \u{2192} ");
            out.append(new_value);
            assert(out@ =~= change_line(kind, path@, old_value@, new_value@));
        },
        ChangeType::Unchanged => {
            out.append("  ");
            out.append(path);
            out.append(": ");
            out.append(old_value);
            assert(out@ =~= change_line(kind, path@, old_value@, new_value@));
        },
    }
    out
}

/// The texts of a list of lines.
pub open spec fn lines_view(lines: Seq<String>) -> Seq<Seq<char>> {
    Seq::new(lines.len(), |i: int| lines[i]@)
}

/// The first `k` lines, each ended by a line feed.
pub open spec fn stacked(lines: Seq<Seq<char>>, k: int) -> Seq<char>
    decreases k,
{
    if k <= 0 {
        Seq::empty()
    } else {
        stacked(lines, k - 1) + lines[k - 1] + seq!['\n']
    }
}

/// The report of a diff: its lines, an empty line and the summary; or, where
/// there is no line, the remark that nothing changed.
pub open spec fn report(lines: Seq<Seq<char>>, stats: DiffStats) -> Seq<char> {
    if lines.len() == 0 {
        "No changes detected."@
    } else {
        stacked(lines, lines.len() as int) + seq!['\n'] + format_summary_spec(stats)
    }
}

/// Puts the lines of the changes that are shown and the summary together.
pub fn format_lines(lines: &[String], stats: &DiffStats) -> (r: String)
    ensures
        r@ == report(lines_view(lines@), *stats),
{
    if lines.len() == 0 {
        return String::from_str("No changes detected.");
    }
    let ghost all = lines_view(lines@);
    let mut out = String::new();
    let mut i: usize = 0;
    while i < lines.len()
        invariant
            i <= lines.len(),
            all == lines_view(lines@),
            out@ == stacked(all, i as int),
        decreases lines.len() - i,
    {
        assert(all[i as int] == lines@[i as int]@);
        out.append(lines[i].as_str());
        out.push('\n');
        proof {
            let before = stacked(all, i as int);
            assert((before + all[i as int]).push('\n') =~= before + all[i as int] + seq!['\n']);
        }
        i += 1;
    }
    out.push('\n');
    let summary = format_summary(stats);
    out.append(summary.as_str());
    proof {
        let body = stacked(all, all.len() as int);
        assert(body.push('\n') + summary@ =~= body + seq!['\n'] + summary@);
    }
    out
}

/// Whether a line of a report is written in quiet mode: the summary and
/// the lines that hold nothing but whitespace are not.
pub open spec fn kept_when_quiet(line: Seq<char>) -> bool {
    !"Summary:"@.is_prefix_of(line) && exists|i: int|
        0 <= i < line.len() && !is_whitespace(#[trigger] line[i])
}

/// Whether a line of a report is written in quiet mode.
pub fn shown_when_quiet(line: &str) -> (r: bool)
    ensures
        r == kept_when_quiet(line@),
{
    let opening = "Summary:";
    let width = opening.unicode_len();
    let mut matched: usize = 0;
    let mut broken = false;
    let mut visible = false;
    for c in it: line.chars()
        invariant
            it.seq() == line@,
            width == opening@.len(),
            matched <= width,
            matched <= it.index(),
            forall|k: int| 0 <= k < matched ==> line@[k] == opening@[k],
            !broken ==> matched == width || matched == it.index(),
            broken ==> matched < width && line@[matched as int] != opening@[matched as int],
            visible == exists|k: int| 0 <= k < it.index() && !is_whitespace(#[trigger] line@[k]),
    {
        proof {
            assert(line@[it.index() as int] == c);
        }
        if !broken && matched < width {
            if c == opening.get_char(matched) {
                matched += 1;
            } else {
                broken = true;
            }
        }
        if !char_is_whitespace(c) {
            visible = true;
        }
    }
    proof {
        if matched == width {
            assert(opening@ =~= line@.subrange(0, width as int));
        } else if width <= line@.len() {
            assert(line@.subrange(0, width as int)[matched as int] == line@[matched as int]);
        }
    }
    matched < width && visible
}

} // verus!
