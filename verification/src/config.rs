//! Configuration values shared by the scanner, the codec and the analyzer.

use crate::text::{from_chars, to_chars};
use vstd::prelude::*;

verus! {

broadcast use vstd::string::group_string_axioms;

/// Default for `Config::ignore_todo_files`: files whose name starts with "todo" are skipped.
pub fn default_true() -> (enabled: bool)
    ensures
        enabled,
{
    true
}

/// What an audit is run with.
#[derive(Debug, Clone)]
pub struct Config {
    /// The root directory of the project.
    pub project_path: String,
    /// The directory of the source code, below the root.
    pub src_dir: String,
    /// The directory of the catalogs, below the root.
    pub locales_dir: String,
    /// The share of unused keys above which an audit fails, in hundredths of a percent.
    pub threshold_basis_points: i64,
    /// A regular expression: a defined key that it matches never counts as unused.
    pub ignore_pattern: Option<String>,
    /// Whether catalog files whose name starts with "todo" are skipped.
    pub ignore_todo_files: bool,
    /// Whether progress is reported.
    pub verbose: bool,
}

/// The path `relative` taken from the directory `base`: `relative` itself where it starts at
/// the root of the file system, else `base`, a `/` unless `base` is empty or ends in one, and
/// `relative`.
pub open spec fn join_path(base: Seq<char>, relative: Seq<char>) -> Seq<char> {
    if relative.len() > 0 && relative[0] == '/' {
        relative
    } else if base.len() == 0 || base.last() == '/' {
        base + relative
    } else {
        base + seq!['/'] + relative
    }
}

/// The path `relative` taken from the directory `base`.
pub fn join_paths(base: &str, relative: &str) -> (joined: String)
    ensures
        joined@ == join_path(base@, relative@),
{
    let tail = to_chars(relative);
    if tail.len() > 0 && tail[0] == '/' {
        return from_chars(&tail);
    }
    let mut joined = to_chars(base);
    if joined.len() > 0 && joined[joined.len() - 1] != '/' {
        joined.push('/');
    }
    let ghost head = joined@;
    let mut i: usize = 0;
    while i < tail.len()
        invariant
            i <= tail.len(),
            joined@ == head + tail@.take(i as int),
        decreases tail.len() - i,
    {
        joined.push(tail[i]);
        assert(tail@.take(i + 1) == tail@.take(i as int).push(tail@[i as int]));
        i += 1;
    }
    assert(tail@.take(tail.len() as int) == tail@);
    from_chars(&joined)
}

impl Config {
    /// The directory of the source code.
    pub fn src_path(&self) -> (path: String)
        ensures
            path@ == join_path(self.project_path@, self.src_dir@),
    {
        join_paths(self.project_path.as_str(), self.src_dir.as_str())
    }

    /// The directory of the catalogs.
    pub fn locales_path(&self) -> (path: String)
        ensures
            path@ == join_path(self.project_path@, self.locales_dir@),
    {
        join_paths(self.project_path.as_str(), self.locales_dir.as_str())
    }
}

} // verus!
