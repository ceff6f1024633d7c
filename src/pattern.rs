//! Whole-name regular expressions, compiled by the `regex` crate.
use vstd::prelude::*;
use vstd::string::StringExecFns;

verus! {

#[verifier::external_type_specification]
#[verifier::external_body]
pub struct ExRegex(regex::Regex);

#[verifier::external_type_specification]
#[verifier::external_body]
pub struct ExRegexError(regex::Error);

/// Whether `regex::Regex::new` accepts a pattern (syntax and default size limit).
pub uninterp spec fn regex_compiles(pattern: Seq<char>) -> bool;

/// Whether the regex compiled from `pattern` matches somewhere in `haystack`.
pub uninterp spec fn regex_finds(pattern: Seq<char>, haystack: Seq<char>) -> bool;

/// The pattern that holds when the whole of a name matches `keyword`: the
/// keyword grouped and anchored at both ends, with the case-insensitive flag
/// unless case matters.
pub open spec fn full_pattern(keyword: Seq<char>, case_sensitive: bool) -> Seq<char> {
    let flags = if case_sensitive {
        Seq::<char>::empty()
    } else {
        "(?i)"@
    };
    flags + "^(?:"@ + keyword + ")$"@
}

/// Relies on `regex::Regex::new`: it succeeds exactly on the patterns that
/// compile, which depends on the pattern alone.
#[verifier::external_body]
fn compile_regex(pattern: &str) -> (r: Result<regex::Regex, regex::Error>)
    ensures
        r is Ok <==> regex_compiles(pattern@),
{
    regex::Regex::new(pattern)
}

/// Relies on `regex::Error`'s `Display`: a human-readable description.
#[verifier::external_body]
fn regex_error_text(e: &regex::Error) -> (r: String) {
    e.to_string()
}

/// A compiled regular expression together with the pattern it came from.
pub struct NamePattern {
    regex: regex::Regex,
    source: Ghost<Seq<char>>,
}

impl View for NamePattern {
    type V = Seq<char>;

    closed spec fn view(&self) -> Seq<char> {
        self.source@
    }
}

/// Relies on `regex::Regex::is_match`: true exactly when the regex, which
/// `NamePattern::compile` built from `p@`, matches somewhere in `haystack`.
#[verifier::external_body]
fn regex_is_match(p: &NamePattern, haystack: &str) -> (r: bool)
    ensures
        r == regex_finds(p@, haystack@),
{
    p.regex.is_match(haystack)
}

impl NamePattern {
    /// Compiles `keyword` as a pattern that must match a whole name; on
    /// failure, returns the regex crate's description of the problem.
    pub fn compile(keyword: &str, case_sensitive: bool) -> (r: Result<NamePattern, String>)
        ensures
            r is Ok <==> regex_compiles(full_pattern(keyword@, case_sensitive)),
            r matches Ok(p) ==> p@ == full_pattern(keyword@, case_sensitive),
    {
        let mut text = if case_sensitive {
            String::new()
        } else {
            String::from_str("(?i)")
        };
        text.append("^(?:");
        text.append(keyword);
        text.append(")$");
        assert(text@ == full_pattern(keyword@, case_sensitive));
        match compile_regex(text.as_str()) {
            Ok(regex) => Ok(NamePattern { regex, source: Ghost(text@) }),
            Err(e) => Err(regex_error_text(&e)),
        }
    }

    /// Whether the whole of `name` matches.
    pub fn matches(&self, name: &str) -> (r: bool)
        ensures
            r == regex_finds(self@, name@),
    {
        regex_is_match(self, name)
    }
}

} // verus!
