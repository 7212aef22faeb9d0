//! Compiled regular expressions, used as segment validators and wildcard routes.

use vstd::prelude::*;

verus! {

#[verifier::external_type_specification]
#[verifier::external_body]
pub struct ExRegex(regex::Regex);

/// Whether `regex::Regex::new` accepts the pattern.
pub uninterp spec fn regex_compiles(pattern: Seq<char>) -> bool;

/// Whether the compiled `pattern` matches somewhere in `text`.
pub uninterp spec fn regex_finds(pattern: Seq<char>, text: Seq<char>) -> bool;

/// A regular expression together with the source it was compiled from.
/// Values are only made by `compile`, so `compiled` always stems from `source`.
#[derive(Debug)]
pub struct Pattern {
    source: String,
    compiled: regex::Regex,
}

impl View for Pattern {
    type V = Seq<char>;

    closed spec fn view(&self) -> Seq<char> {
        self.source@
    }
}

/// Relies on `regex::Regex::new`: it succeeds exactly on the patterns it accepts,
/// and the result is kept beside its source text.
#[verifier::external_body]
fn compile(src: &str) -> (r: Option<Pattern>)
    ensures
        r.is_some() == regex_compiles(src@),
        r matches Some(p) ==> p@ == src@,
{
    match regex::Regex::new(src) {
        Ok(re) => Some(Pattern { source: src.to_string(), compiled: re }),
        Err(_) => None,
    }
}

impl Pattern {
    /// Compiles `src`; `None` where the regex syntax rejects it.
    pub fn parse(src: &str) -> (r: Option<Pattern>)
        ensures
            r.is_some() == regex_compiles(src@),
            r matches Some(p) ==> p@ == src@,
    {
        compile(src)
    }

    /// Relies on `regex::Regex::is_match`: whether the pattern matches in `text`.
    #[verifier::external_body]
    pub(crate) fn is_match(&self, text: &str) -> (r: bool)
        ensures
            r == regex_finds(self@, text@),
    {
        self.compiled.is_match(text)
    }

    /// The source text of the pattern.
    pub fn as_str(&self) -> (r: &str)
        ensures
            r@ == self@,
    {
        self.source.as_str()
    }
}

} // verus!
