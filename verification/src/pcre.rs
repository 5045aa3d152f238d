//! Regular expressions.
use crate::text;
use crate::text::joined;
use pcre2::bytes::{Regex, RegexBuilder};
use vstd::prelude::*;

verus! {

/// `pcre2`'s compiled expression.
#[verifier::external_type_specification]
#[verifier::external_body]
pub struct ExRegex(pcre2::bytes::Regex);

/// Why an expression cannot be compiled, if it cannot.
pub uninterp spec fn expression_fault(source: Seq<char>, sensitive: bool) -> Option<Seq<char>>;

/// Whether an expression matches somewhere in a subject.
pub uninterp spec fn expression_matches(
    source: Seq<char>,
    sensitive: bool,
    subject: Seq<u8>,
) -> bool;

/// A compiled expression with the source that it was compiled from.
#[derive(Debug)]
pub struct Pattern {
    source: String,
    sensitive: bool,
    regex: Regex,
}

impl Pattern {
    pub closed spec fn source(&self) -> Seq<char> {
        self.source@
    }

    pub closed spec fn sensitive(&self) -> bool {
        self.sensitive
    }

    /// `pcre2`'s `RegexBuilder::build` with Unicode enabled, and its error as text. The result
    /// keeps the source; there is no other way to make one.
    #[verifier::external_body]
    fn build(source: &str, sensitive: bool) -> (result: Result<Self, String>)
        ensures
            match result {
                Ok(pattern) => expression_fault(source@, sensitive) is None && pattern.source()
                    == source@ && pattern.sensitive() == sensitive,
                Err(reason) => expression_fault(source@, sensitive) == Some(reason@),
            },
    {
        let mut builder = RegexBuilder::new();
        builder.utf(true).ucp(true).caseless(!sensitive).jit_if_available(true);
        match builder.build(source) {
            Ok(regex) => Ok(Pattern { source: source.to_owned(), sensitive, regex }),
            Err(error) => Err(error.to_string()),
        }
    }

    /// `pcre2`'s `Regex::is_match`. When it gives up, on a limit for instance, is not stated:
    /// that depends on how the expression was compiled on this machine.
    #[verifier::external_body]
    fn search(&self, subject: &[u8]) -> (result: Result<bool, String>)
        ensures
            result matches Ok(found) ==> found == expression_matches(
                self.source(),
                self.sensitive(),
                subject@,
            ),
    {
        self.regex.is_match(subject).map_err(|error| error.to_string())
    }

    /// Whether the expression matches somewhere in a text. Only a failed search is an error.
    pub fn is_match(&self, subject: &str) -> (result: Result<bool, String>)
        ensures
            match result {
                Ok(found) => found == expression_matches(
                    self.source(),
                    self.sensitive(),
                    text::bytes_of(subject@),
                ),
                Err(message) => text::begins(message@, "PCRE2 matching failed: "@),
            },
    {
        match self.search(subject.as_bytes()) {
            Ok(found) => Ok(found),
            Err(reason) => {
                let message = joined("PCRE2 matching failed: ", reason.as_str());
                proof {
                    let head = "PCRE2 matching failed: "@;
                    assert(message@.take(head.len() as int) =~= head);
                }
                Err(message)
            },
        }
    }
}

/// The source that an expression is compiled from: limits bound pathological backtracking and
/// the memory of nested patterns.
pub open spec fn limited(expression: Seq<char>) -> Seq<char> {
    "(*LIMIT_MATCH=100000)(*LIMIT_DEPTH=1000)"@ + expression
}

/// Compile an expression.
pub fn pattern(expression: &str, sensitive: bool) -> (result: Result<Pattern, String>)
    ensures
        match expression_fault(limited(expression@), sensitive) {
            None => result matches Ok(compiled) && compiled.source() == limited(expression@)
                && compiled.sensitive() == sensitive,
            Some(reason) => result matches Err(message) && message@ == "Invalid PCRE2 pattern: "@
                + reason,
        },
{
    let source = joined("(*LIMIT_MATCH=100000)(*LIMIT_DEPTH=1000)", expression);
    match Pattern::build(source.as_str(), sensitive) {
        Ok(compiled) => Ok(compiled),
        Err(reason) => Err(joined("Invalid PCRE2 pattern: ", reason.as_str())),
    }
}

} // verus!
