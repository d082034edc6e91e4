//! What the version-control integration decides without running anything:
//! whether the arguments are those of a diff driver, whether a path stands
//! for a missing file, and what its errors say.

use crate::text::str_eq;
use vstd::prelude::*;

verus! {

/// What can go wrong when the version-control tool is configured.
#[derive(Debug)]
pub enum GitError {
    /// The command could not be run.
    CommandFailed(String),
    /// The tool is not installed, or not on the search path.
    GitNotFound,
    /// The path of this program could not be found.
    ExecutableNotFound,
    /// The tool ran and reported an error.
    GitError(String),
}

pub type GitResult<T> = Result<T, GitError>;

/// The mathematical value of an error.
pub enum GitErrorView {
    CommandFailed(Seq<char>),
    GitNotFound,
    ExecutableNotFound,
    GitError(Seq<char>),
}

impl View for GitError {
    type V = GitErrorView;

    open spec fn view(&self) -> GitErrorView {
        match self {
            GitError::CommandFailed(s) => GitErrorView::CommandFailed(s@),
            GitError::GitNotFound => GitErrorView::GitNotFound,
            GitError::ExecutableNotFound => GitErrorView::ExecutableNotFound,
            GitError::GitError(s) => GitErrorView::GitError(s@),
        }
    }
}

/// What an error says.
pub open spec fn message_of(e: GitErrorView) -> Seq<char> {
    match e {
        GitErrorView::CommandFailed(s) => "Failed to execute git command: "@ + s,
        GitErrorView::GitNotFound => "Git is not installed or not in PATH"@,
        GitErrorView::ExecutableNotFound => "Failed to determine sdiff executable path"@,
        GitErrorView::GitError(s) => "Git command returned error: "@ + s,
    }
}

impl GitError {
    /// What the error says.
    pub fn message(&self) -> (r: String)
        ensures
            r@ == message_of(self@),
    {
        match self {
            GitError::CommandFailed(s) => {
                let mut out = String::from_str("Failed to execute git command: ");
                out.append(s.as_str());
                out
            },
            GitError::GitNotFound => String::from_str("Git is not installed or not in PATH"),
            GitError::ExecutableNotFound => String::from_str(
                "Failed to determine sdiff executable path",
            ),
            GitError::GitError(s) => {
                let mut out = String::from_str("Git command returned error: ");
                out.append(s.as_str());
                out
            },
        }
    }
}

/// A hexadecimal digit, in either case.
pub open spec fn is_hex_digit(c: char) -> bool {
    ('0' <= c <= '9') || ('a' <= c <= 'f') || ('A' <= c <= 'F')
}

/// The form of an object name: forty hexadecimal digits.
pub open spec fn is_git_hash_spec(s: Seq<char>) -> bool {
    s.len() == 40 && forall|i: int| 0 <= i < s.len() ==> is_hex_digit(#[trigger] s[i])
}

fn hex_digit(c: char) -> (r: bool)
    ensures
        r == is_hex_digit(c),
{
    ('0' <= c && c <= '9') || ('a' <= c && c <= 'f') || ('A' <= c && c <= 'F')
}

/// Whether `s` has the form of an object name.
pub fn is_git_hash(s: &str) -> (r: bool)
    ensures
        r == is_git_hash_spec(s@),
{
    let mut count: usize = 0;
    for c in it: s.chars()
        invariant
            it.seq() == s@,
            count == it.index(),
            count <= 40,
            forall|i: int| 0 <= i < it.index() ==> is_hex_digit(#[trigger] s@[i]),
    {
        if count == 40 || !hex_digit(c) {
            return false;
        }
        count += 1;
    }
    count == 40
}

/// The paths of the old and the new file where the arguments are the seven
/// of a diff driver: path, old file, old object name, old mode, new file,
/// new object name, new mode.
pub open spec fn driver_args_spec(args: Seq<Seq<char>>) -> Option<(Seq<char>, Seq<char>)> {
    if args.len() == 7 && is_git_hash_spec(args[2]) && is_git_hash_spec(args[5]) {
        Some((args[1], args[4]))
    } else {
        None
    }
}

/// The texts of a list of arguments.
pub open spec fn args_view(args: Seq<String>) -> Seq<Seq<char>> {
    Seq::new(args.len(), |i: int| args[i]@)
}

/// Recognises the seven arguments of a diff driver and picks the two files.
pub fn detect_git_diff_driver_args(args: &[String]) -> (r: Option<(String, String)>)
    ensures
        match r {
            Some((old_file, new_file)) => driver_args_spec(args_view(args@)) == Some(
                (old_file@, new_file@),
            ),
            None => driver_args_spec(args_view(args@)) is None,
        },
{
    if args.len() != 7 {
        return None;
    }
    proof {
        assert(args_view(args@)[1] == args@[1]@);
        assert(args_view(args@)[2] == args@[2]@);
        assert(args_view(args@)[4] == args@[4]@);
        assert(args_view(args@)[5] == args@[5]@);
    }
    if !is_git_hash(args[2].as_str()) || !is_git_hash(args[5].as_str()) {
        return None;
    }
    Some((args[1].clone(), args[4].clone()))
}

/// The paths that stand for a file that is not there.
pub open spec fn is_null_file_spec(path: Seq<char>) -> bool {
    path == "/dev/null"@ || path == "nul"@ || path == "NUL"@
}

/// Whether the path stands for a file that was added or deleted.
pub fn is_null_file(path: &str) -> (r: bool)
    ensures
        r == is_null_file_spec(path@),
{
    str_eq(path, "/dev/null") || str_eq(path, "nul") || str_eq(path, "NUL")
}

/// The command that the difftool is configured with: the program, and the
/// two files as the tool names them.
pub open spec fn difftool_command_spec(program: Seq<char>) -> Seq<char> {
    program + " \"$LOCAL\" \"$REMOTE\""@
}

/// The command that the difftool is configured with.
pub fn difftool_command(program: &str) -> (r: String)
    ensures
        r@ == difftool_command_spec(program@),
{
    let mut out = String::from_str(program);
    out.append(" \"$LOCAL\" \"$REMOTE\"");
    out
}

/// Whether taking a key out of the configuration went well: the tool
/// succeeded, or it ended with status 5, which says that the key was not
/// set.
pub fn unset_succeeded(success: bool, code: Option<i32>) -> (r: bool)
    ensures
        r == (success || code == Some(5i32)),
{
    if success {
        true
    } else {
        match code {
            Some(c) => c == 5,
            None => false,
        }
    }
}

} // verus!
