//! ECMAScript regular expressions, compiled and run by the `regress` crate.
//!
//! Compilation and matching take pages to state, so their results are named:
//! `regex_compiles` and `regex_finds` are functions of the pattern text, the
//! flag text and the subject text alone.
use vstd::prelude::*;

verus! {

#[verifier::external_type_specification]
#[verifier::external_body]
pub struct ExRegex(regress::Regex);

/// Whether `regress` accepts `pattern` with `flags` (named result of
/// `regress::Regex::with_flags`).
pub uninterp spec fn regex_compiles(pattern: Seq<char>, flags: Seq<char>) -> bool;

/// Whether the regex compiled from `pattern` and `flags` matches somewhere in
/// `text` (named result of `regress::Regex::find`).
pub uninterp spec fn regex_finds(pattern: Seq<char>, flags: Seq<char>, text: Seq<char>) -> bool;

/// A compiled regex together with the pattern and flags it was compiled from.
/// Only `compile` builds one, so `re` is always the compilation of
/// `source` with `flags`.
pub struct Pattern {
    re: regress::Regex,
    source: String,
    flags: String,
}

impl Pattern {
    /// The pattern text this regex was compiled from.
    pub closed spec fn source(&self) -> Seq<char> {
        self.source@
    }

    /// The flag text this regex was compiled with.
    pub closed spec fn flags(&self) -> Seq<char> {
        self.flags@
    }
}

/// Compiles `source` with `flags`.
/// Wraps `regress::Regex::with_flags`: `Ok` exactly when the pattern is
/// accepted, which is named `regex_compiles`; nothing more is claimed of the
/// compiled regex than that it came from these two strings.
#[verifier::external_body]
pub fn compile(source: &str, flags: &str) -> (r: Option<Pattern>)
    ensures
        r is Some <==> regex_compiles(source@, flags@),
        r matches Some(p) ==> p.source() == source@ && p.flags() == flags@,
{
    match regress::Regex::with_flags(source, flags) {
        Ok(re) => Some(Pattern { re, source: source.to_string(), flags: flags.to_string() }),
        Err(_) => None,
    }
}

/// Whether the compiled pattern matches somewhere in `text`.
/// Wraps `regress::Regex::find`: the result is `Some` exactly when there is a
/// match, named `regex_finds` of the pattern's source, flags and the text.
#[verifier::external_body]
pub fn finds(p: &Pattern, text: &str) -> (r: bool)
    ensures
        r == regex_finds(p.source(), p.flags(), text@),
{
    p.re.find(text).is_some()
}

} // verus!
