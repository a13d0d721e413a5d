//! The filters that decide which files are reported: two patterns on the
//! path, and the age filter.
//!
//! A file passes if its path matches the pattern `re`, where one is set,
//! does not match the pattern `exclude_re`, where one is set, and if its
//! time of modification passes the age filter. The pattern `re` is tried
//! first. Directories are not filtered.

use vstd::prelude::*;
use crate::entry::AgeFilter;

verus! {

/// Whether `pattern` is a regular expression that matches somewhere in
/// `text`. It is false of a pattern that is none.
pub uninterp spec fn regex_matches(pattern: Seq<char>, text: Seq<u8>) -> bool;

/// Whether `pattern` is a regular expression for text.
pub uninterp spec fn regex_compiles(pattern: Seq<char>) -> bool;

/// Compiles `pattern` with `regex::bytes::Regex::new` and searches `text`
/// with `Regex::is_match`, which tells whether the expression matches
/// anywhere in the bytes given. Both depend on their arguments alone. A
/// pattern that does not compile matches nothing. The pattern is compiled
/// on every call.
#[verifier::external_body]
fn regex_is_match(pattern: &str, text: &Vec<u8>) -> (r: bool)
    ensures
        r == regex_matches(pattern@, text@),
{
    match regex::bytes::Regex::new(pattern) {
        Ok(re) => re.is_match(text),
        Err(_) => false,
    }
}

/// Tells whether `regex::Regex::new` accepts `pattern`: it returns an
/// error for a pattern that is no regular expression, for one that could
/// match bytes that are no text, and for one whose program would be too
/// large. What it returns depends on the pattern alone.
#[verifier::external_body]
fn regex_is_valid(pattern: &str) -> (r: bool)
    ensures
        r == regex_compiles(pattern@),
{
    regex::Regex::new(pattern).is_ok()
}

/// The filters of a scan.
#[derive(Debug)]
pub struct Filters {
    /// Only files whose path matches this pattern pass.
    pub re: Option<String>,
    /// No file whose path matches this pattern passes.
    pub exclude_re: Option<String>,
    pub age: AgeFilter,
}

/// Why a pattern was refused.
#[derive(Debug, Clone, Copy, PartialEq, Eq, Structural)]
pub enum PatternError {
    /// It is no regular expression.
    Invalid,
}

/// Whether a path passes the two patterns.
pub open spec fn path_passes(re: Option<String>, exclude_re: Option<String>, path: Seq<u8>) -> bool {
    &&& match re {
        Some(p) => regex_matches(p@, path),
        None => true,
    }
    &&& match exclude_re {
        Some(p) => !regex_matches(p@, path),
        None => true,
    }
}

impl Filters {
    /// Whether a file with this path and time of modification passes.
    pub open spec fn allows(&self, path: Seq<u8>, mtime: i128) -> bool {
        path_passes(self.re, self.exclude_re, path) && self.age.allows(mtime)
    }

    /// Filters that let every file pass.
    pub fn none() -> (r: Filters)
        ensures
            r.re is None,
            r.exclude_re is None,
            r.age.newer_than is None,
            r.age.older_than is None,
    {
        Filters { re: None, exclude_re: None, age: AgeFilter::none() }
    }

    /// Whether a file with this path and time of modification passes.
    pub fn passes(&self, path: &Vec<u8>, mtime: i128) -> (r: bool)
        ensures
            r == self.allows(path@, mtime),
    {
        match &self.re {
            Some(p) => {
                if !regex_is_match(p.as_str(), path) {
                    return false;
                }
            },
            None => {},
        }
        match &self.exclude_re {
            Some(p) => {
                if regex_is_match(p.as_str(), path) {
                    return false;
                }
            },
            None => {},
        }
        self.age.passes(mtime)
    }
}

/// Takes a pattern given on the command line: it is kept if it is a
/// regular expression, and refused if not.
pub fn parse_regex(s: &str) -> (r: Result<String, PatternError>)
    ensures
        match r {
            Ok(p) => regex_compiles(s@) && p@ == s@,
            Err(e) => !regex_compiles(s@) && e == PatternError::Invalid,
        },
{
    if regex_is_valid(s) {
        Ok(s.to_owned())
    } else {
        Err(PatternError::Invalid)
    }
}

} // verus!
