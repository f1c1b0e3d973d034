//! Which history file to edit: an explicit path from the command line first,
//! then `$HISTFILE` if it names a file, then `~/.zsh_history`, then
//! `~/.bash_history`.
//!
//! Only an *exported* `HISTFILE` reaches this process. zsh is usually told
//! its history file as a shell parameter (macOS `/etc/zshrc` and oh-my-zsh
//! both set it without exporting), which never reaches another process, so
//! the fallbacks and the explicit path matter: a shell can be using one file
//! while this process would resolve to another.
//!
//! The choice is a plan of steps that the front end walks, looking at the
//! file system only where a step asks whether a path is a file.

use std::path::Path;

use vstd::prelude::*;

verus! {

/// Whether `c` has the Unicode property `White_Space`, a fixed list of code
/// points.
pub open spec fn is_white_space(c: char) -> bool {
    let code = c as u32;
    ||| 0x09 <= code <= 0x0d
    ||| code == 0x20
    ||| code == 0x85
    ||| code == 0xa0
    ||| code == 0x1680
    ||| 0x2000 <= code <= 0x200a
    ||| code == 0x2028
    ||| code == 0x2029
    ||| code == 0x202f
    ||| code == 0x205f
    ||| code == 0x3000
}

/// `s` without its leading white space.
pub open spec fn trim_start(s: Seq<char>) -> Seq<char>
    decreases s.len(),
{
    if s.len() > 0 && is_white_space(s[0]) {
        trim_start(s.skip(1))
    } else {
        s
    }
}

/// `s` without its trailing white space.
pub open spec fn trim_end(s: Seq<char>) -> Seq<char>
    decreases s.len(),
{
    if s.len() > 0 && is_white_space(s.last()) {
        trim_end(s.drop_last())
    } else {
        s
    }
}

/// `s` without leading and trailing white space.
pub open spec fn trimmed(s: Seq<char>) -> Seq<char> {
    trim_end(trim_start(s))
}

/// Calls `str::trim`, which std documents as removing leading and trailing
/// characters with the Unicode property `White_Space`.
#[verifier::external_body]
fn trim_str(s: &str) -> (r: &str)
    ensures
        r@ == trimmed(s@),
{
    s.trim()
}

/// What `Path::join` makes of a base path and a relative part, as text.
pub uninterp spec fn joined(base: Seq<char>, rest: Seq<char>) -> Seq<char>;

/// Calls `Path::join` on `base` and `rest` and takes the result as text,
/// which is lossless since both parts are text. Where separators go, and
/// whether `rest` replaces `base`, follows the platform's path rules (`/` on
/// Unix, `\` and `/` with drive prefixes on Windows), so it is left to the
/// name `joined`.
#[verifier::external_body]
fn join_path(base: &str, rest: &str) -> (r: String)
    ensures
        r@ == joined(base@, rest@),
{
    Path::new(base).join(rest).to_string_lossy().into_owned()
}

/// What a step of the plan does with its path or message.
#[derive(Clone, Copy, PartialEq, Eq, Structural, Debug)]
pub enum StepKind {
    /// Take the path.
    Use,
    /// Take the path if it names a file, else go on.
    UseIfFile,
    /// Give up with the message.
    Fail,
}

/// One step of finding the history file.
#[derive(Debug)]
pub enum PathStep {
    Use(String),
    UseIfFile(String),
    Fail(String),
}

pub open spec fn step_view(step: PathStep) -> (StepKind, Seq<char>) {
    match step {
        PathStep::Use(path) => (StepKind::Use, path@),
        PathStep::UseIfFile(path) => (StepKind::UseIfFile, path@),
        PathStep::Fail(message) => (StepKind::Fail, message@),
    }
}

pub open spec fn text_view(text: Option<&str>) -> Option<Seq<char>> {
    match text {
        Some(t) => Some(t@),
        None => None,
    }
}

/// `value` with a leading `~/` replaced by the home directory, when there is
/// one.
pub open spec fn expand_home(value: Seq<char>, home: Option<Seq<char>>) -> Seq<char> {
    match home {
        Some(h) => if value.len() >= 2 && value[0] == '~' && value[1] == '/' {
            joined(h, value.skip(2))
        } else {
            value
        },
        None => value,
    }
}

pub open spec fn no_home_message() -> Seq<char> {
    "HOME is not set"@
}

pub open spec fn not_found_message() -> Seq<char> {
    "No history file found. Set HISTFILE."@
}

/// The plan for the explicit path `explicit`, the value `histfile` of
/// `$HISTFILE` and the home directory `home`: a non-blank explicit path,
/// trimmed and expanded, is taken as it is. Otherwise a non-blank
/// `$HISTFILE`, trimmed and expanded, is taken if it is a file; then, with no
/// home directory, the search fails; with one, `.zsh_history` and then
/// `.bash_history` in it are taken if they are files, and else it fails.
pub open spec fn spec_history_path_steps(
    explicit: Option<Seq<char>>,
    histfile: Option<Seq<char>>,
    home: Option<Seq<char>>,
) -> Seq<(StepKind, Seq<char>)> {
    match explicit {
        Some(e) if trimmed(e).len() > 0 => seq![(StepKind::Use, expand_home(trimmed(e), home))],
        _ => {
            let first = match histfile {
                Some(h) if trimmed(h).len() > 0 => seq![
                    (StepKind::UseIfFile, expand_home(trimmed(h), home)),
                ],
                _ => Seq::empty(),
            };
            first + match home {
                None => seq![(StepKind::Fail, no_home_message())],
                Some(h) => seq![
                    (StepKind::UseIfFile, joined(h, ".zsh_history"@)),
                    (StepKind::UseIfFile, joined(h, ".bash_history"@)),
                    (StepKind::Fail, not_found_message()),
                ],
            }
        },
    }
}

/// The order of the search: a non-blank explicit path is the only step.
/// Otherwise, with a home directory, the plan ends by trying
/// `.zsh_history` and then `.bash_history` in it and failing with the
/// not-found message, whatever `$HISTFILE` is, and before that tries only
/// `$HISTFILE`, when it is not blank; without a home directory it ends by
/// failing with the no-home message.
pub proof fn lemma_search_order(explicit: Option<Seq<char>>, histfile: Option<Seq<char>>, home: Option<Seq<char>>)
    ensures
        ({
            let plan = spec_history_path_steps(explicit, histfile, home);
            let usable = explicit matches Some(e) && trimmed(e).len() > 0;
            let from_histfile = histfile matches Some(h) && trimmed(h).len() > 0;
            &&& usable ==> plan.len() == 1 && plan[0].0 == StepKind::Use && plan[0].1 == expand_home(
                trimmed(explicit->0),
                home,
            )
            &&& !usable && home is Some ==> {
                &&& plan.len() == (if from_histfile { 4int } else { 3int })
                &&& plan[plan.len() - 3] == (StepKind::UseIfFile, joined(home->0, ".zsh_history"@))
                &&& plan[plan.len() - 2] == (StepKind::UseIfFile, joined(home->0, ".bash_history"@))
                &&& plan[plan.len() - 1] == (StepKind::Fail, "No history file found. Set HISTFILE."@)
                &&& from_histfile ==> plan[0] == (StepKind::UseIfFile, expand_home(trimmed(histfile->0), home))
            }
            &&& !usable && home is None ==> {
                &&& plan.len() == (if from_histfile { 2int } else { 1int })
                &&& plan[plan.len() - 1] == (StepKind::Fail, "HOME is not set"@)
                &&& from_histfile ==> plan[0] == (StepKind::UseIfFile, trimmed(histfile->0))
            }
        }),
{
}

/// `value` with a leading `~/` replaced by `home`, when there is one.
pub fn expand(value: &str, home: Option<&str>) -> (r: String)
    ensures
        r@ == expand_home(value@, text_view(home)),
{
    match home {
        Some(h) => {
            let length = value.unicode_len();
            if length >= 2 && value.get_char(0) == '~' && value.get_char(1) == '/' {
                let rest = value.substring_char(2, length);
                assert(rest@ =~= value@.skip(2));
                join_path(h, rest)
            } else {
                String::from_str(value)
            }
        },
        None => String::from_str(value),
    }
}

/// The steps that find the history file, given the explicit path, the value
/// of `$HISTFILE` and the home directory.
pub fn history_path_plan(explicit: Option<&str>, histfile: Option<&str>, home: Option<&str>) -> (r: Vec<
    PathStep,
>)
    ensures
        r@.map_values(|step: PathStep| step_view(step)) == spec_history_path_steps(
            text_view(explicit),
            text_view(histfile),
            text_view(home),
        ),
{
    let mut steps: Vec<PathStep> = Vec::new();
    if let Some(e) = explicit {
        let value = trim_str(e);
        if value.unicode_len() > 0 {
            steps.push(PathStep::Use(expand(value, home)));
            assert(steps@.map_values(|step: PathStep| step_view(step)) =~= spec_history_path_steps(
                text_view(explicit),
                text_view(histfile),
                text_view(home),
            ));
            return steps;
        }
    }
    if let Some(h) = histfile {
        let value = trim_str(h);
        if value.unicode_len() > 0 {
            steps.push(PathStep::UseIfFile(expand(value, home)));
        }
    }
    match home {
        None => steps.push(PathStep::Fail(String::from_str("HOME is not set"))),
        Some(h) => {
            steps.push(PathStep::UseIfFile(join_path(h, ".zsh_history")));
            steps.push(PathStep::UseIfFile(join_path(h, ".bash_history")));
            steps.push(PathStep::Fail(String::from_str("No history file found. Set HISTFILE.")));
        },
    }
    assert(steps@.map_values(|step: PathStep| step_view(step)) =~= spec_history_path_steps(
        text_view(explicit),
        text_view(histfile),
        text_view(home),
    ));
    steps
}

} // verus!
