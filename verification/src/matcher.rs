//! The boundary to the regular-expression engine.
//!
//! A compiled regular expression is opaque to the verifier, so the engine is
//! reached through a small set of trusted operations.  What a pattern matches
//! is not written out here: the span that a search reports is given a name
//! ([`find_span`]), a function of the pattern source, the haystack and the
//! starting position alone, and everything downstream is verified against
//! that name.

use vstd::prelude::*;

verus! {

#[verifier::external_type_specification]
#[verifier::external_body]
pub struct ExRegex(regex::bytes::Regex);

/// Whether `regex::bytes::Regex::new` accepts `src` as a pattern.
pub uninterp spec fn regex_compiles(src: Seq<char>) -> bool;

/// The byte span that `regex::bytes::Regex::find_at` reports for the pattern
/// compiled from `pat`, searching `text` from position `from` on.
pub uninterp spec fn find_span(pat: Seq<char>, text: Seq<u8>, from: int) -> Option<(int, int)>;

/// A compiled matcher, kept together with the pattern source it was built
/// from.  The fields are private: every `Matcher` is made by [`Matcher::new`],
/// so the compiled expression always belongs to the stored source.
pub struct Matcher {
    src: String,
    re: regex::bytes::Regex,
}

impl Matcher {
    /// The pattern source this matcher was compiled from.
    pub closed spec fn source(&self) -> Seq<char> {
        self.src@
    }

    /// Relies on `regex::bytes::Regex::new`: compilation succeeds exactly when
    /// the source is a valid pattern within the default size limit.
    #[verifier::external_body]
    pub fn new(src: &str) -> (r: Option<Matcher>)
        ensures
            match r {
                Some(m) => m.source() == src@ && regex_compiles(src@),
                None => !regex_compiles(src@),
            },
    {
        match regex::bytes::Regex::new(src) {
            Ok(re) => Some(Matcher { src: src.to_owned(), re }),
            Err(_) => None,
        }
    }

    /// Relies on `regex::bytes::Regex::find_at`: it reports the leftmost match
    /// that begins at or after `from`, as byte offsets into `text`, and panics
    /// only when `from` exceeds the haystack length.
    #[verifier::external_body]
    pub fn find_at(&self, text: &[u8], from: usize) -> (r: Option<(usize, usize)>)
        requires
            from <= text@.len(),
        ensures
            match r {
                Some(sp) => {
                    &&& find_span(self.source(), text@, from as int) == Some(
                        (sp.0 as int, sp.1 as int),
                    )
                    &&& from <= sp.0
                    &&& sp.0 <= sp.1
                    &&& sp.1 <= text@.len()
                },
                None => find_span(self.source(), text@, from as int) is None,
            },
    {
        match self.re.find_at(text, from) {
            Some(m) => Some((m.start(), m.end())),
            None => None,
        }
    }

    /// True when the pattern matches anywhere in `text`.
    pub fn is_match(&self, text: &[u8]) -> (r: bool)
        ensures
            r == (find_span(self.source(), text@, 0) is Some),
    {
        self.find_at(text, 0).is_some()
    }
}

} // verus!
