//! Patterns: regular expressions compiled by the `regex` crate, tested
//! against base names.
use vstd::prelude::*;
use regex::Regex;

verus! {

#[verifier::external_type_specification]
#[verifier::external_body]
pub struct ExRegex(Regex);

/// Whether `regex::Regex::new` accepts the expression: it parses, and the
/// compiled program fits the default size limits.
pub uninterp spec fn regex_compiles(expr: Seq<char>) -> bool;

/// Whether the regex compiled with default options from `expr` matches
/// somewhere in `hay`.
pub uninterp spec fn regex_is_match(expr: Seq<char>, hay: Seq<char>) -> bool;

/// Relies on `regex::Regex::new`: it compiles `expr` with default options
/// and returns an error exactly when the expression is refused; the error
/// is kept as the text its `Display` gives.
#[verifier::external_body]
fn compile(expr: &str) -> (r: Result<Regex, String>)
    ensures
        r is Ok <==> regex_compiles(expr@),
{
    match Regex::new(expr) {
        Ok(re) => Ok(re),
        Err(e) => Err(e.to_string()),
    }
}

/// An expression that failed to compile, with the reason the regex engine
/// gave.
pub struct InvalidPattern {
    pub expr: String,
    pub message: String,
}

/// A compiled regular expression together with the text it was compiled
/// from.
pub struct Pattern {
    source: String,
    re: Regex,
}

impl View for Pattern {
    type V = Seq<char>;

    /// The expression the pattern was compiled from.
    closed spec fn view(&self) -> Seq<char> {
        self.source@
    }
}

/// The expressions of a sequence of patterns.
pub open spec fn sources(pats: Seq<Pattern>) -> Seq<Seq<char>> {
    pats.map_values(|p: Pattern| p@)
}

impl Pattern {
    /// Compiles `expr`; fails exactly on the expressions the regex engine
    /// refuses.
    pub fn new(expr: &str) -> (r: Result<Pattern, InvalidPattern>)
        ensures
            r is Ok <==> regex_compiles(expr@),
            r matches Ok(p) ==> p@ == expr@,
            r matches Err(e) ==> e.expr@ == expr@,
    {
        match compile(expr) {
            Ok(re) => Ok(Pattern { source: expr.to_string(), re }),
            Err(message) => Err(InvalidPattern { expr: expr.to_string(), message }),
        }
    }

    /// The expression the pattern was compiled from.
    pub fn as_str(&self) -> (r: &str)
        ensures
            r@ == self@,
    {
        self.source.as_str()
    }

    /// Relies on `regex::Regex::is_match`: whether the regex matches
    /// anywhere in `hay`. The regex of a `Pattern` is always the one
    /// compiled from its `source`: `Pattern::new` sets the two private
    /// fields together, and nothing else writes them.
    #[verifier::external_body]
    pub(crate) fn is_match(&self, hay: &str) -> (r: bool)
        ensures
            r == regex_is_match(self@, hay@),
    {
        self.re.is_match(hay)
    }
}

} // verus!
