//! Which format a document is taken to have: by the extension of its name,
//! and, where that does not tell, by trying the formats in a fixed order.

use vstd::prelude::*;

verus! {

/// The format that a document is expected to have.
#[derive(Debug, Clone, Copy, PartialEq, Eq, Structural)]
pub enum FormatHint {
    Json,
    Yaml,
    Toml,
    /// Not known: each format is tried in turn.
    Auto,
}

/// The lower-case form of an ASCII capital; any other character is left as
/// it is.
pub open spec fn ascii_lower(c: char) -> char {
    if 'A' <= c <= 'Z' {
        ((c as u8) + 32) as char
    } else {
        c
    }
}

/// Whether two texts are the same but for the case of their ASCII letters.
pub open spec fn same_ignoring_case(a: Seq<char>, b: Seq<char>) -> bool {
    a.len() == b.len() && forall|i: int|
        0 <= i < a.len() ==> ascii_lower(#[trigger] a[i]) == ascii_lower(b[i])
}

/// The format that an extension stands for, whatever the case of its
/// letters.
pub open spec fn format_of(extension: Option<Seq<char>>) -> FormatHint {
    match extension {
        Some(e) => if same_ignoring_case(e, "json"@) {
            FormatHint::Json
        } else if same_ignoring_case(e, "yaml"@) || same_ignoring_case(e, "yml"@) {
            FormatHint::Yaml
        } else if same_ignoring_case(e, "toml"@) {
            FormatHint::Toml
        } else {
            FormatHint::Auto
        },
        None => FormatHint::Auto,
    }
}

fn lower(c: char) -> (r: char)
    ensures
        r == ascii_lower(c),
{
    if 'A' <= c && c <= 'Z' {
        ((c as u8) + 32) as char
    } else {
        c
    }
}

fn matches_ignoring_case(a: &str, b: &str) -> (r: bool)
    ensures
        r == same_ignoring_case(a@, b@),
{
    let n = a.unicode_len();
    if n != b.unicode_len() {
        return false;
    }
    let mut i: usize = 0;
    while i < n
        invariant
            i <= n,
            n == a@.len(),
            n == b@.len(),
            forall|k: int| 0 <= k < i ==> ascii_lower(#[trigger] a@[k]) == ascii_lower(b@[k]),
        decreases n - i,
    {
        if lower(a.get_char(i)) != lower(b.get_char(i)) {
            return false;
        }
        i += 1;
    }
    true
}

/// The format that the extension of a file name stands for.
pub fn format_for_extension(extension: Option<&str>) -> (r: FormatHint)
    ensures
        r == format_of(
            match extension {
                Some(e) => Some(e@),
                None => None,
            },
        ),
{
    match extension {
        Some(e) => {
            if matches_ignoring_case(e, "json") {
                FormatHint::Json
            } else if matches_ignoring_case(e, "yaml") || matches_ignoring_case(e, "yml") {
                FormatHint::Yaml
            } else if matches_ignoring_case(e, "toml") {
                FormatHint::Toml
            } else {
                FormatHint::Auto
            }
        },
        None => FormatHint::Auto,
    }
}

/// The formats in the order in which they are tried where the format is not
/// known.
pub open spec fn attempts() -> Seq<FormatHint> {
    seq![FormatHint::Json, FormatHint::Yaml, FormatHint::Toml]
}

/// The format to try first.
pub fn first_attempt() -> (r: FormatHint)
    ensures
        r == attempts()[0],
{
    FormatHint::Json
}

/// The format to try after `tried` has failed; none where all were tried.
pub fn next_attempt(tried: FormatHint) -> (r: Option<FormatHint>)
    ensures
        match r {
            Some(next) => exists|i: int|
                0 <= i && i + 1 < attempts().len() && #[trigger] attempts()[i] == tried
                    && attempts()[i + 1] == next,
            None => tried == FormatHint::Auto || tried == attempts().last(),
        },
{
    match tried {
        FormatHint::Json => {
            assert(attempts()[0] == FormatHint::Json && attempts()[1] == FormatHint::Yaml);
            Some(FormatHint::Yaml)
        },
        FormatHint::Yaml => {
            assert(attempts()[1] == FormatHint::Yaml && attempts()[2] == FormatHint::Toml);
            Some(FormatHint::Toml)
        },
        FormatHint::Toml => None,
        FormatHint::Auto => None,
    }
}

} // verus!
