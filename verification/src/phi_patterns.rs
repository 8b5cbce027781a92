//! The pattern registry: the categories of sensitive data, the pattern
//! definitions, and the built-in set of patterns.
//!
//! Registry order matters: it is the tie-break priority used by the redactor
//! when overlapping detections of equal width compete.

use crate::matcher::Matcher;
use crate::matcher::regex_compiles;
use vstd::prelude::*;

verus! {

/// The kinds of sensitive identifiers the built-in patterns target.
#[derive(Debug, Clone, Copy, PartialEq, Eq, Hash, Structural)]
pub enum PHIType {
    SSN,
    MedicalRecordNumber,
    ICD10,
    DateOfBirth,
    IndonesianNIK,
    IndonesianBPJS,
}

/// How many categories there are.
pub const PHI_TYPE_COUNT: usize = 6;

impl PHIType {
    /// The position of this category in a fixed table of all categories.
    pub open spec fn index_spec(&self) -> int {
        match self {
            PHIType::SSN => 0,
            PHIType::MedicalRecordNumber => 1,
            PHIType::ICD10 => 2,
            PHIType::DateOfBirth => 3,
            PHIType::IndonesianNIK => 4,
            PHIType::IndonesianBPJS => 5,
        }
    }

    /// The position of this category in a fixed table of all categories.
    pub fn index(&self) -> (r: usize)
        ensures
            r as int == self.index_spec(),
            r < PHI_TYPE_COUNT,
    {
        match self {
            PHIType::SSN => 0,
            PHIType::MedicalRecordNumber => 1,
            PHIType::ICD10 => 2,
            PHIType::DateOfBirth => 3,
            PHIType::IndonesianNIK => 4,
            PHIType::IndonesianBPJS => 5,
        }
    }

    /// The category's name, as it appears in reports.
    pub fn name(&self) -> (r: &'static str)
        ensures
            match self {
                PHIType::SSN => r@ == "SSN"@,
                PHIType::MedicalRecordNumber => r@ == "MedicalRecordNumber"@,
                PHIType::ICD10 => r@ == "ICD10"@,
                PHIType::DateOfBirth => r@ == "DateOfBirth"@,
                PHIType::IndonesianNIK => r@ == "IndonesianNIK"@,
                PHIType::IndonesianBPJS => r@ == "IndonesianBPJS"@,
            },
    {
        match self {
            PHIType::SSN => "SSN",
            PHIType::MedicalRecordNumber => "MedicalRecordNumber",
            PHIType::ICD10 => "ICD10",
            PHIType::DateOfBirth => "DateOfBirth",
            PHIType::IndonesianNIK => "IndonesianNIK",
            PHIType::IndonesianBPJS => "IndonesianBPJS",
        }
    }
}

/// Optional context rule attached to an externally configured pattern.
#[derive(Debug, Clone)]
pub struct PatternContext {
    pub before: Option<Vec<String>>,
    pub after: Option<Vec<String>>,
    pub window: Option<u32>,
}

/// How a pattern asks to be redacted.
#[derive(Debug, Clone)]
pub struct Redaction {
    pub template: String,
    pub strategy: String,
}

/// Free-form descriptive fields of an externally configured pattern.
#[derive(Debug, Clone)]
pub struct PatternMetadata {
    pub category: Option<String>,
    pub severity: Option<String>,
    pub examples: Option<Vec<String>>,
}

/// One pattern definition as it appears in an external configuration file.
/// `confidence` is a percentage.
#[derive(Debug, Clone)]
pub struct PHIPatternConfig {
    pub id: String,
    pub name: String,
    pub description: Option<String>,
    pub regex: String,
    pub context: Option<PatternContext>,
    pub confidence: Option<u32>,
    pub redaction: Redaction,
    pub metadata: Option<PatternMetadata>,
}

/// A whole external pattern configuration file.
#[derive(Debug, Clone)]
pub struct PHIPatternsFile {
    pub patterns: Vec<PHIPatternConfig>,
}

/// A registered pattern: a category together with its compiled matcher and
/// redaction defaults.  `confidence` is a percentage.
pub struct PHIPattern {
    pub phi_type: PHIType,
    pub regex: Matcher,
    pub context: Option<PatternContext>,
    pub confidence: Option<u32>,
    pub redaction: Redaction,
    pub metadata: Option<PatternMetadata>,
}

/// The category and pattern source of each built-in pattern, in registry
/// order.
pub open spec fn builtin_pattern_specs() -> Seq<(PHIType, Seq<char>)> {
    seq![
        (PHIType::SSN, r"\b\d{3}-\d{2}-\d{4}\b"@),
        (PHIType::MedicalRecordNumber, r"\b\d{8,12}\b"@),
        (PHIType::ICD10, r"\b[A-TV-Z][0-9]{2}(\.[A-Z0-9]{1,4})?\b"@),
        (PHIType::DateOfBirth, r"\b(\d{2}/\d{2}/\d{4}|\d{4}-\d{2}-\d{2}|\d{2}/\d{2}/\d{4})\b"@),
        (PHIType::IndonesianNIK, r"\b\d{16}\b"@),
        (PHIType::IndonesianBPJS, r"\b\d{13}\b"@),
    ]
}

/// The category and pattern source a `PHIPattern` carries.
pub open spec fn pattern_spec_of(p: PHIPattern) -> (PHIType, Seq<char>) {
    (p.phi_type, p.regex.source())
}

/// The built-in defaults for the fields a built-in pattern does not use.
pub open spec fn has_builtin_defaults(p: PHIPattern) -> bool {
    &&& p.context is None
    &&& p.confidence is None
    &&& p.metadata is None
    &&& p.redaction.template@ == "[REDACTED]"@
    &&& p.redaction.strategy@ == "full"@
}

impl PHIPattern {
    /// Build one registry entry for `phi_type` from the pattern source `src`,
    /// or `None` when the source does not compile.
    fn make(phi_type: PHIType, src: &str) -> (r: Option<PHIPattern>)
        ensures
            match r {
                Some(p) => {
                    &&& pattern_spec_of(p) == (phi_type, src@)
                    &&& regex_compiles(src@)
                    &&& has_builtin_defaults(p)
                },
                None => !regex_compiles(src@),
            },
    {
        match Matcher::new(src) {
            Some(m) => Some(
                PHIPattern {
                    phi_type,
                    regex: m,
                    context: None,
                    confidence: None,
                    redaction: Redaction {
                        template: String::from_str("[REDACTED]"),
                        strategy: String::from_str("full"),
                    },
                    metadata: None,
                },
            ),
            None => None,
        }
    }

    /// The built-in registry: one pattern per category, in registry order.
    /// A source that the engine rejects is left out; the built-in sources are
    /// all accepted in practice.
    pub fn all_patterns() -> (r: Vec<PHIPattern>)
        ensures
            r@.map_values(|p: PHIPattern| pattern_spec_of(p)) == builtin_pattern_specs().filter(
                |t: (PHIType, Seq<char>)| regex_compiles(t.1),
            ),
            forall|i: int| 0 <= i < r@.len() ==> has_builtin_defaults(#[trigger] r@[i]),
    {
        let mut out: Vec<PHIPattern> = Vec::new();
        proof {
            reveal(Seq::filter);
            assert(out@.map_values(|p: PHIPattern| pattern_spec_of(p)) =~= builtin_pattern_specs()
                .subrange(0, 0).filter(|t: (PHIType, Seq<char>)| regex_compiles(t.1)));
        }
        Self::push_pattern(&mut out, Ghost(0), PHIType::SSN, r"\b\d{3}-\d{2}-\d{4}\b");
        Self::push_pattern(&mut out, Ghost(1), PHIType::MedicalRecordNumber, r"\b\d{8,12}\b");
        Self::push_pattern(&mut out, Ghost(2), PHIType::ICD10, r"\b[A-TV-Z][0-9]{2}(\.[A-Z0-9]{1,4})?\b");
        Self::push_pattern(
            &mut out,
            Ghost(3),
            PHIType::DateOfBirth,
            r"\b(\d{2}/\d{2}/\d{4}|\d{4}-\d{2}-\d{2}|\d{2}/\d{2}/\d{4})\b",
        );
        Self::push_pattern(&mut out, Ghost(4), PHIType::IndonesianNIK, r"\b\d{16}\b");
        Self::push_pattern(&mut out, Ghost(5), PHIType::IndonesianBPJS, r"\b\d{13}\b");
        proof {
            assert(builtin_pattern_specs().subrange(0, 6) =~= builtin_pattern_specs());
        }
        out
    }

    /// Append the pattern for position `k` of the built-in list, keeping the
    /// registry equal to the compiled prefix of the built-in list.
    fn push_pattern(out: &mut Vec<PHIPattern>, Ghost(k): Ghost<int>, phi_type: PHIType, src: &str)
        requires
            0 <= k < builtin_pattern_specs().len(),
            builtin_pattern_specs()[k] == (phi_type, src@),
            old(out)@.map_values(|p: PHIPattern| pattern_spec_of(p)) == builtin_pattern_specs()
                .subrange(0, k).filter(|t: (PHIType, Seq<char>)| regex_compiles(t.1)),
            forall|i: int| 0 <= i < old(out)@.len() ==> has_builtin_defaults(#[trigger] old(out)@[i]),
        ensures
            final(out)@.map_values(|p: PHIPattern| pattern_spec_of(p)) == builtin_pattern_specs()
                .subrange(0, k + 1).filter(|t: (PHIType, Seq<char>)| regex_compiles(t.1)),
            forall|i: int| 0 <= i < final(out)@.len() ==> has_builtin_defaults(
                #[trigger] final(out)@[i],
            ),
    {
        let ghost pred = |t: (PHIType, Seq<char>)| regex_compiles(t.1);
        let ghost prefix = builtin_pattern_specs().subrange(0, k);
        proof {
            assert(builtin_pattern_specs().subrange(0, k + 1) =~= prefix.push((phi_type, src@)));
            lemma_filter_push(prefix, (phi_type, src@), pred);
        }
        match Self::make(phi_type, src) {
            Some(p) => {
                out.push(p);
                proof {
                    assert(out@.map_values(|q: PHIPattern| pattern_spec_of(q)) =~= prefix.filter(
                        pred,
                    ).push((phi_type, src@)));
                }
            },
            None => {},
        }
    }
}

/// Filtering a sequence extended by one element keeps the filtered prefix and
/// appends the element exactly when it satisfies the predicate.
proof fn lemma_filter_push<A>(s: Seq<A>, x: A, pred: spec_fn(A) -> bool)
    ensures
        s.push(x).filter(pred) == if pred(x) {
            s.filter(pred).push(x)
        } else {
            s.filter(pred)
        },
{
    reveal(Seq::filter);
    assert(s.push(x).drop_last() =~= s);
    assert(s.push(x).last() == x);
}

} // verus!
