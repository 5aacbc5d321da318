use vstd::prelude::*;

verus! {

/// What happened to a watched path.
#[derive(PartialEq, Eq, Structural, Clone, Copy, Debug)]
pub enum ChangeKind {
    Created,
    Modified,
    Removed,
    Other,
}

/// What the watch loop does about an event on one path.
#[derive(PartialEq, Eq, Structural, Clone, Copy, Debug)]
pub enum WatchAction {
    /// Nothing: the path is not watched, or the event says nothing new.
    Skip,
    /// Extract the file again and put its keys in place of the old ones.
    Reextract,
    /// Drop what the file contributed.
    Drop,
}

/// The action for an event: only paths that match the watched pattern count;
/// a created or modified path is extracted again where it is a file, and a
/// removed one is dropped.
pub open spec fn action_for(kind: ChangeKind, matches_pattern: bool, is_file: bool) -> WatchAction {
    if !matches_pattern {
        WatchAction::Skip
    } else {
        match kind {
            ChangeKind::Created | ChangeKind::Modified => if is_file {
                WatchAction::Reextract
            } else {
                WatchAction::Skip
            },
            ChangeKind::Removed => WatchAction::Drop,
            ChangeKind::Other => WatchAction::Skip,
        }
    }
}

/// Decides what to do about an event on one path.
pub fn check_event(kind: ChangeKind, matches_pattern: bool, is_file: bool) -> (r: WatchAction)
    ensures
        r == action_for(kind, matches_pattern, is_file),
{
    if !matches_pattern {
        return WatchAction::Skip;
    }
    match kind {
        ChangeKind::Created | ChangeKind::Modified => {
            if is_file {
                WatchAction::Reextract
            } else {
                WatchAction::Skip
            }
        },
        ChangeKind::Removed => WatchAction::Drop,
        ChangeKind::Other => WatchAction::Skip,
    }
}

#[verifier::external_type_specification]
#[verifier::external_body]
pub struct ExPattern(glob::Pattern);

/// Whether the glob pattern with this text compiles.
pub uninterp spec fn glob_valid(pattern: Seq<char>) -> bool;

/// Whether the path matches the glob pattern with this text, under the
/// default match options.
pub uninterp spec fn glob_matches(pattern: Seq<char>, path: Seq<char>) -> bool;

/// Relies on `glob::Pattern::new`: whether a pattern compiles depends on its
/// text alone.
#[verifier::external_body]
fn compile_glob(pattern: &str) -> (r: Option<glob::Pattern>)
    ensures
        r is Some == glob_valid(pattern@),
{
    glob::Pattern::new(pattern).ok()
}

/// A compiled glob pattern with the text it was compiled from.
pub struct PathFilter {
    pattern: glob::Pattern,
    text: String,
}

/// Relies on `glob::Pattern::matches`: under the default match options the
/// answer depends on the pattern's text and the path alone. The pattern of a
/// `PathFilter` is compiled from its text, as `PathFilter::new` makes it.
#[verifier::external_body]
fn glob_match(filter: &PathFilter, path: &str) -> (r: bool)
    ensures
        r == glob_matches(filter.text@, path@),
{
    filter.pattern.matches(path)
}

impl PathFilter {
    /// The text the pattern was compiled from.
    pub closed spec fn text_view(&self) -> Seq<char> {
        self.text@
    }

    /// The filter of a glob pattern, where the pattern compiles.
    pub fn new(pattern: &str) -> (r: Option<PathFilter>)
        ensures
            r is Some == glob_valid(pattern@),
            r is Some ==> r->0.text_view() == pattern@,
    {
        match compile_glob(pattern) {
            Some(p) => Some(PathFilter { pattern: p, text: pattern.to_owned() }),
            None => None,
        }
    }

    /// Whether the path matches the pattern.
    pub fn matches(&self, path: &str) -> (r: bool)
        ensures
            r == glob_matches(self.text_view(), path@),
    {
        glob_match(self, path)
    }

    /// Decides what to do about an event on a path relative to the watched
    /// directory.
    pub fn classify(&self, kind: ChangeKind, relative_path: &str, is_file: bool) -> (r: WatchAction)
        ensures
            r == action_for(kind, glob_matches(self.text_view(), relative_path@), is_file),
    {
        let matched = self.matches(relative_path);
        check_event(kind, matched, is_file)
    }
}

} // verus!
