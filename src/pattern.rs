//! Station-name patterns, matched with the `regex` crate.
use vstd::prelude::*;

verus! {

/// `regex::Regex`, a compiled regular expression, held opaque: nothing
/// inside it is read here, it is only handed back to `is_match`.
#[verifier::external_type_specification]
#[verifier::external_body]
pub struct ExRegex(regex::Regex);

/// Whether `regex::Regex::new` accepts `pattern`, under the crate's default
/// settings (syntax and size limit).
pub uninterp spec fn regex_accepts(pattern: Seq<char>) -> bool;

/// Whether the regex compiled from `pattern` matches somewhere in `text`.
pub uninterp spec fn regex_finds(pattern: Seq<char>, text: Seq<char>) -> bool;

/// Relies on `regex::Regex::new`: it returns a regex exactly when the pattern
/// is valid and within the default size limit, a fact of the pattern alone.
#[verifier::external_body]
fn compile_regex(pattern: &str) -> (r: Option<regex::Regex>)
    ensures
        r is Some <==> regex_accepts(pattern@),
{
    regex::Regex::new(pattern).ok()
}

/// A compiled pattern together with the text it was compiled from.
pub(crate) struct StationPattern {
    regex: regex::Regex,
    source: Ghost<Seq<char>>,
}

impl StationPattern {
    /// The text the pattern was compiled from.
    pub closed spec fn source(&self) -> Seq<char> {
        self.source@
    }

    /// Compiles `pattern`; `None` where the regex crate rejects it.
    pub(crate) fn new(pattern: &str) -> (r: Option<StationPattern>)
        ensures
            r is Some <==> regex_accepts(pattern@),
            r matches Some(p) ==> p.source() == pattern@,
    {
        match compile_regex(pattern) {
            Some(regex) => Some(StationPattern { regex, source: Ghost(pattern@) }),
            None => None,
        }
    }

    /// Relies on `regex::Regex::is_match`: whether the regex matches anywhere
    /// in `text`. The regex here is always the one compiled from `source`.
    #[verifier::external_body]
    pub(crate) fn is_match(&self, text: &str) -> (r: bool)
        ensures
            r == regex_finds(self.source(), text@),
    {
        self.regex.is_match(text)
    }
}

} // verus!
