//! The redactor: resolve overlapping detections and rewrite the text under
//! a masking strategy.
//!
//! Overlap resolution follows a keep-longest policy.  Detections are ordered
//! by start position (ties keep registry order); runs of detections whose
//! spans overlap are grouped into clusters; each cluster is replaced by a
//! single mask, the mask of its widest detection (ties go to the earliest
//! start, then to the earliest in the ordered list), covering the union of
//! the cluster's spans.  The text between clusters is copied verbatim.
//!
//! Mask generation is pure and position-independent: a function of the
//! strategy, the category and the matched bytes alone.

use crate::phi_patterns::PHIType;
use crate::scanner::Detection;
use crate::scanner::DetectionView;
use crate::scanner::valid_detection;
use crate::scanner::valid_detections;
use crate::scanner::views_of;
use vstd::multiset::Multiset;
use vstd::prelude::*;
use vstd::slice::slice_to_vec;

verus! {

/// The session-wide choice of how a detection's text is replaced.
#[derive(Debug, Clone, Copy, PartialEq, Eq, Structural)]
pub enum RedactionStrategy {
    FullReplacement,
    PartialMasking,
    PlaceholderSubstitution,
}

/// The redactor: carries the masking strategy; every call is a one-shot
/// pure transformation.
pub struct Redactor {
    pub strategy: RedactionStrategy,
}

/// `n` copies of the byte `b`.
pub open spec fn repeat_byte(b: u8, n: int) -> Seq<u8> {
    if n <= 0 {
        Seq::empty()
    } else {
        Seq::new(n as nat, |i| b)
    }
}

/// The fixed full-replacement shape for a dash-delimited SSN.
pub open spec fn ssn_full_mask() -> Seq<u8> {
    seq![
        'X' as u8,
        'X' as u8,
        'X' as u8,
        '-' as u8,
        'X' as u8,
        'X' as u8,
        '-' as u8,
        'X' as u8,
        'X' as u8,
        'X' as u8,
        'X' as u8,
    ]
}

/// The fixed full-replacement shape for a date of birth.
pub open spec fn dob_full_mask() -> Seq<u8> {
    seq![
        'X' as u8,
        'X' as u8,
        '/' as u8,
        'X' as u8,
        'X' as u8,
        '/' as u8,
        'X' as u8,
        'X' as u8,
        'X' as u8,
        'X' as u8,
    ]
}

/// Full replacement: a fixed category shape for the fixed-format categories,
/// a same-length run of `X` for the free-length ones.
pub open spec fn full_mask_model(t: PHIType, m: Seq<u8>) -> Seq<u8> {
    match t {
        PHIType::SSN => ssn_full_mask(),
        PHIType::MedicalRecordNumber => repeat_byte('X' as u8, m.len() as int),
        PHIType::ICD10 => repeat_byte('X' as u8, m.len() as int),
        PHIType::DateOfBirth => dob_full_mask(),
        PHIType::IndonesianNIK => repeat_byte('X' as u8, 16),
        PHIType::IndonesianBPJS => repeat_byte('X' as u8, 13),
    }
}

/// Mask all but the last `keep` bytes with `*`.  Text no longer than `keep`
/// does not meet the format requirement and is left unchanged.
pub open spec fn suffix_mask(m: Seq<u8>, keep: int) -> Seq<u8> {
    if m.len() > keep {
        repeat_byte('*' as u8, m.len() - keep) + m.skip(m.len() - keep)
    } else {
        m
    }
}

/// The separators a date may be written with.
pub open spec fn is_date_sep(b: u8) -> bool {
    b == ('/' as u8) || b == ('-' as u8)
}

/// The least separator position at or after `from`, or the length of `m`
/// when there is none.
pub open spec fn sep_after(m: Seq<u8>, from: int) -> int
    decreases m.len() - from,
{
    if !(0 <= from < m.len()) {
        m.len() as int
    } else if is_date_sep(m[from]) {
        from
    } else {
        sep_after(m, from + 1)
    }
}

/// Format-preserving masking of a dash-delimited SSN: keep the last group
/// visible; anything of another shape keeps its last four bytes.
pub open spec fn ssn_partial_mask(m: Seq<u8>) -> Seq<u8> {
    if m.len() == 11 && m[3] == ('-' as u8) && m[6] == ('-' as u8) {
        seq!['*' as u8, '*' as u8, '*' as u8, '-' as u8, '*' as u8, '*' as u8, '-' as u8] + m.skip(
            7,
        )
    } else {
        suffix_mask(m, 4)
    }
}

/// Partial masking of a diagnosis code: only the first byte stays visible.
pub open spec fn icd10_partial_mask(m: Seq<u8>) -> Seq<u8> {
    if m.len() > 0 {
        seq![m[0]] + repeat_byte('*' as u8, m.len() - 1)
    } else {
        m
    }
}

/// Partial masking of a date: hide day and month, keep the year.  The year
/// is the first part when that part has four bytes, else the third part.
/// Text that does not split into at least three parts on `/` or `-`, or is
/// shorter than a year, does not meet the format requirement and is left
/// unchanged.
pub open spec fn dob_partial_mask(m: Seq<u8>) -> Seq<u8> {
    let i1 = sep_after(m, 0);
    let i2 = sep_after(m, i1 + 1);
    let i3 = sep_after(m, i2 + 1);
    if m.len() >= 4 && i1 < m.len() && i2 < m.len() {
        let year = if i1 == 4 {
            m.take(4)
        } else {
            m.subrange(i2 + 1, i3)
        };
        seq!['*' as u8, '*' as u8, '/' as u8, '*' as u8, '*' as u8, '/' as u8] + year
    } else {
        m
    }
}

/// Partial masking: format-preserving, a fixed visible suffix per category.
pub open spec fn partial_mask_model(t: PHIType, m: Seq<u8>) -> Seq<u8> {
    match t {
        PHIType::SSN => ssn_partial_mask(m),
        PHIType::MedicalRecordNumber => suffix_mask(m, 4),
        PHIType::ICD10 => icd10_partial_mask(m),
        PHIType::DateOfBirth => dob_partial_mask(m),
        PHIType::IndonesianNIK => suffix_mask(m, 8),
        PHIType::IndonesianBPJS => suffix_mask(m, 6),
    }
}

/// A bracketed placeholder token: `[REDACTED-` + tag + `]`.
pub open spec fn placeholder_bytes(tag: Seq<u8>) -> Seq<u8> {
    seq![
        '[' as u8,
        'R' as u8,
        'E' as u8,
        'D' as u8,
        'A' as u8,
        'C' as u8,
        'T' as u8,
        'E' as u8,
        'D' as u8,
        '-' as u8,
    ] + tag + seq![']' as u8]
}

/// The tag naming each category inside its placeholder token.
pub open spec fn placeholder_tag(t: PHIType) -> Seq<u8> {
    match t {
        PHIType::SSN => seq!['S' as u8, 'S' as u8, 'N' as u8],
        PHIType::MedicalRecordNumber => seq!['M' as u8, 'R' as u8, 'N' as u8],
        PHIType::ICD10 => seq!['I' as u8, 'C' as u8, 'D' as u8, '1' as u8, '0' as u8],
        PHIType::DateOfBirth => seq!['D' as u8, 'O' as u8, 'B' as u8],
        PHIType::IndonesianNIK => seq!['N' as u8, 'I' as u8, 'K' as u8],
        PHIType::IndonesianBPJS => seq!['B' as u8, 'P' as u8, 'J' as u8, 'S' as u8],
    }
}

/// Placeholder substitution: a fixed token per category, independent of the
/// matched text.
pub open spec fn placeholder_model(t: PHIType) -> Seq<u8> {
    placeholder_bytes(placeholder_tag(t))
}

/// The replacement text for one detection: strategy-dispatched, then
/// category-dispatched; a pure function of strategy, category and matched
/// bytes.
pub open spec fn mask_model(strategy: RedactionStrategy, t: PHIType, m: Seq<u8>) -> Seq<u8> {
    match strategy {
        RedactionStrategy::FullReplacement => full_mask_model(t, m),
        RedactionStrategy::PartialMasking => partial_mask_model(t, m),
        RedactionStrategy::PlaceholderSubstitution => placeholder_model(t),
    }
}

/// The width of a detection's span.
pub open spec fn det_width(d: DetectionView) -> int {
    d.end - d.start
}

/// Insert `d` into `s` behind every element whose start is not greater than
/// `d`'s: the insertion step of a stable sort by start position.
pub open spec fn insert_by_start(d: DetectionView, s: Seq<DetectionView>) -> Seq<DetectionView>
    decreases s.len(),
{
    if s.len() == 0 {
        seq![d]
    } else if d.start < s.last().start {
        insert_by_start(d, s.drop_last()).push(s.last())
    } else {
        s.push(d)
    }
}

/// Stable sort by start position: ties keep the original order, which is the
/// registry order for detections coming from a scan.
pub open spec fn sort_by_start(s: Seq<DetectionView>) -> Seq<DetectionView>
    decreases s.len(),
{
    if s.len() == 0 {
        Seq::empty()
    } else {
        insert_by_start(s.last(), sort_by_start(s.drop_last()))
    }
}

/// Start positions never decrease along `s`.
pub open spec fn sorted_by_start(s: Seq<DetectionView>) -> bool {
    forall|i: int, j: int| 0 <= i < j < s.len() ==> s[i].start <= s[j].start
}

/// Inserting keeps sortedness and adds exactly the inserted element.
proof fn lemma_insert_by_start_props(d: DetectionView, s: Seq<DetectionView>)
    requires
        sorted_by_start(s),
    ensures
        insert_by_start(d, s).len() == s.len() + 1,
        sorted_by_start(insert_by_start(d, s)),
        insert_by_start(d, s).to_multiset() == s.to_multiset().insert(d),
    decreases s.len(),
{
    broadcast use vstd::seq_lib::group_to_multiset_ensures;

    let r = insert_by_start(d, s);
    if s.len() == 0 {
        assert(r =~= Seq::empty().push(d));
        assert(Seq::<DetectionView>::empty().to_multiset() =~= Multiset::empty());
    } else if d.start < s.last().start {
        let dl = s.drop_last();
        assert(sorted_by_start(dl));
        lemma_insert_by_start_props(d, dl);
        let t = insert_by_start(d, dl);
        assert(r == t.push(s.last()));
        assert forall|i: int, j: int| 0 <= i < j < r.len() implies r[i].start <= r[j].start by {
            if j < r.len() - 1 {
                assert(r[i] == t[i] && r[j] == t[j]);
            } else {
                assert(r[j] == s.last());
                assert(r[i] == t[i]);
                assert(t.to_multiset().count(t[i]) > 0);
                assert(t.contains(t[i]));
                if dl.contains(t[i]) {
                    let k = choose|k: int| 0 <= k < dl.len() && dl[k] == t[i];
                    assert(s[k] == dl[k]);
                    assert(s[k].start <= s.last().start);
                } else {
                    assert(t[i] == d);
                }
            }
        }
        assert(t.push(s.last()).to_multiset() =~= t.to_multiset().insert(s.last()));
        assert(s.drop_last().push(s.last()) =~= s);
        assert(s.to_multiset() =~= dl.to_multiset().insert(s.last()));
        assert(r.to_multiset() =~= s.to_multiset().insert(d));
    } else {
        assert(r == s.push(d));
        assert forall|i: int, j: int| 0 <= i < j < r.len() implies r[i].start <= r[j].start by {
            if j == r.len() - 1 {
                assert(r[i] == s[i]);
                assert(s[i].start <= s.last().start);
            }
        }
        assert(s.push(d).to_multiset() =~= s.to_multiset().insert(d));
    }
}

/// Sorting by start yields a sorted rearrangement of the same detections.
pub proof fn lemma_sort_by_start_props(s: Seq<DetectionView>)
    ensures
        sort_by_start(s).len() == s.len(),
        sorted_by_start(sort_by_start(s)),
        sort_by_start(s).to_multiset() == s.to_multiset(),
    decreases s.len(),
{
    broadcast use vstd::seq_lib::group_to_multiset_ensures;

    if s.len() == 0 {
    } else {
        let dl = s.drop_last();
        lemma_sort_by_start_props(dl);
        lemma_insert_by_start_props(s.last(), sort_by_start(dl));
        assert(dl.push(s.last()) =~= s);
        assert(s.to_multiset() =~= dl.to_multiset().insert(s.last()));
    }
}

/// Every detection of the sorted sequence is a detection of the original,
/// so validity carries over.
proof fn lemma_sort_by_start_valid(s: Seq<DetectionView>, text: Seq<u8>)
    requires
        valid_detections(s, text),
    ensures
        valid_detections(sort_by_start(s), text),
{
    broadcast use vstd::seq_lib::group_to_multiset_ensures;

    lemma_sort_by_start_props(s);
    let r = sort_by_start(s);
    assert forall|i: int| 0 <= i < r.len() implies valid_detection(#[trigger] r[i], text) by {
        assert(r.to_multiset().count(r[i]) > 0);
        assert(s.contains(r[i]));
        let k = choose|k: int| 0 <= k < s.len() && s[k] == r[i];
        assert(valid_detection(s[k], text));
    }
}

/// The redacted text from position `last` on, when the detections from index
/// `i` on are still to be processed and no cluster is open.
pub open spec fn redact_closed(
    text: Seq<u8>,
    s: Seq<DetectionView>,
    strategy: RedactionStrategy,
    i: int,
    last: int,
) -> Seq<u8>
    decreases s.len() - i, 0int,
{
    if !(0 <= i < s.len()) {
        text.subrange(last, text.len() as int)
    } else {
        redact_open(text, s, strategy, i + 1, last, s[i].start, s[i].end, i)
    }
}

/// The redacted text while a cluster is open: its spans so far cover
/// `[cs, ce)`, its widest member is `s[win]`, and the detections from index
/// `i` on are still to be processed.  A detection starting inside the cover
/// joins the cluster; otherwise the cluster is closed: the gap before it is
/// copied verbatim and the whole cover is replaced by the winner's mask.
pub open spec fn redact_open(
    text: Seq<u8>,
    s: Seq<DetectionView>,
    strategy: RedactionStrategy,
    i: int,
    last: int,
    cs: int,
    ce: int,
    win: int,
) -> Seq<u8>
    decreases s.len() - i, 1int,
{
    if 0 <= i < s.len() && s[i].start < ce {
        let ce2 = if s[i].end > ce {
            s[i].end
        } else {
            ce
        };
        let win2 = if det_width(s[i]) > det_width(s[win]) {
            i
        } else {
            win
        };
        redact_open(text, s, strategy, i + 1, last, cs, ce2, win2)
    } else {
        text.subrange(last, cs) + mask_model(strategy, s[win].phi_type, s[win].matched_text)
            + redact_closed(text, s, strategy, i, ce)
    }
}

/// Where the insertion of a stable sort lands: inserting `d` into the
/// sorted `s` places it at the position `p` that keeps everything with a
/// start not greater than `d`'s in front of it.
proof fn lemma_insert_at_position(d: DetectionView, s: Seq<DetectionView>, p: int)
    requires
        sorted_by_start(s),
        0 <= p <= s.len(),
        forall|j: int| p <= j < s.len() ==> s[j].start > d.start,
        p > 0 ==> s[p - 1].start <= d.start,
    ensures
        insert_by_start(d, s) == s.take(p) + seq![d] + s.skip(p),
    decreases s.len(),
{
    if s.len() == 0 {
        assert(insert_by_start(d, s) =~= s.take(p) + seq![d] + s.skip(p));
    } else if d.start < s.last().start {
        assert(p < s.len());
        let dl = s.drop_last();
        assert(sorted_by_start(dl));
        lemma_insert_at_position(d, dl, p);
        assert((dl.take(p) + seq![d] + dl.skip(p)).push(s.last()) =~= s.take(p) + seq![d] + s.skip(
            p,
        ));
    } else {
        assert(p == s.len()) by {
            if p < s.len() {
                assert(s[s.len() - 1].start > d.start);
            }
        }
        assert(s.push(d) =~= s.take(p) + seq![d] + s.skip(p));
    }
}

/// The result of redacting `text` given `dets` under `strategy`: the
/// detections ordered by start position (ties keep the given order),
/// overlapping runs clustered and replaced by the mask of the widest member,
/// and everything between clusters copied verbatim.
pub open spec fn redact_model(
    text: Seq<u8>,
    dets: Seq<DetectionView>,
    strategy: RedactionStrategy,
) -> Seq<u8> {
    redact_closed(text, sort_by_start(dets), strategy, 0, 0)
}

/// Sorting a sequence already ordered by start leaves it unchanged.
proof fn lemma_sort_of_sorted(s: Seq<DetectionView>)
    requires
        sorted_by_start(s),
    ensures
        sort_by_start(s) == s,
    decreases s.len(),
{
    if s.len() == 0 {
        assert(sort_by_start(s) =~= s);
    } else {
        let dl = s.drop_last();
        assert(sorted_by_start(dl));
        lemma_sort_of_sorted(dl);
        if dl.len() == 0 {
            assert(insert_by_start(s.last(), dl) =~= s);
        } else {
            assert(s[dl.len() - 1].start <= s[s.len() - 1].start);
            assert(insert_by_start(s.last(), dl) == dl.push(s.last()));
            assert(dl.push(s.last()) =~= s);
        }
    }
}

/// The text with each of the detections from index `i` on masked exactly
/// once, in order, and the gaps between them copied verbatim.
pub open spec fn spliced(
    text: Seq<u8>,
    s: Seq<DetectionView>,
    strategy: RedactionStrategy,
    i: int,
    last: int,
) -> Seq<u8>
    decreases s.len() - i,
{
    if !(0 <= i < s.len()) {
        text.subrange(last, text.len() as int)
    } else {
        text.subrange(last, s[i].start) + mask_model(strategy, s[i].phi_type, s[i].matched_text)
            + spliced(text, s, strategy, i + 1, s[i].end)
    }
}

/// With no two spans overlapping, every cluster is a single detection.
proof fn lemma_redact_disjoint_from(
    text: Seq<u8>,
    s: Seq<DetectionView>,
    strategy: RedactionStrategy,
    i: int,
    last: int,
)
    requires
        valid_detections(s, text),
        sorted_by_start(s),
        forall|k: int| 0 <= k < s.len() - 1 ==> #[trigger] s[k].end <= s[k + 1].start,
    ensures
        redact_closed(text, s, strategy, i, last) == spliced(text, s, strategy, i, last),
    decreases s.len() - i,
{
    if 0 <= i < s.len() {
        assert(valid_detection(s[i], text));
        if i + 1 < s.len() {
            assert(s[i].end <= s[i + 1].start);
        }
        lemma_redact_disjoint_from(text, s, strategy, i + 1, s[i].end);
    }
}

/// Law: a detection list ordered by start position in which no two spans
/// overlap is redacted by masking every span exactly once, in order, while
/// the unredacted gaps are copied byte for byte from the source.
pub proof fn lemma_redact_non_overlapping(
    text: Seq<u8>,
    dets: Seq<DetectionView>,
    strategy: RedactionStrategy,
)
    requires
        valid_detections(dets, text),
        sorted_by_start(dets),
        forall|k: int| 0 <= k < dets.len() - 1 ==> #[trigger] dets[k].end <= dets[k + 1].start,
    ensures
        redact_model(text, dets, strategy) == spliced(text, dets, strategy, 0, 0),
{
    lemma_sort_of_sorted(dets);
    lemma_redact_disjoint_from(text, dets, strategy, 0, 0);
}

/// Two spans that do not overlap: one ends before the other begins.
pub open spec fn spans_disjoint(a: DetectionView, b: DetectionView) -> bool {
    a.end <= b.start || b.end <= a.start
}

/// No two detections of the list have overlapping spans.
pub open spec fn pairwise_disjoint(s: Seq<DetectionView>) -> bool {
    forall|i: int, j: int|
        #![trigger s[i], s[j]]
        0 <= i < j < s.len() ==> spans_disjoint(s[i], s[j])
}

/// Inserting a detection that overlaps nothing keeps the list free of
/// overlaps.
proof fn lemma_insert_pairwise_disjoint(d: DetectionView, s: Seq<DetectionView>)
    requires
        sorted_by_start(s),
        pairwise_disjoint(s),
        forall|k: int| 0 <= k < s.len() ==> spans_disjoint(d, #[trigger] s[k]),
    ensures
        pairwise_disjoint(insert_by_start(d, s)),
    decreases s.len(),
{
    broadcast use vstd::seq_lib::group_to_multiset_ensures;

    let r = insert_by_start(d, s);
    if s.len() == 0 {
        assert(r =~= seq![d]);
    } else if d.start < s.last().start {
        let dl = s.drop_last();
        assert(sorted_by_start(dl));
        assert forall|i: int, j: int|
            #![trigger dl[i], dl[j]]
            0 <= i < j < dl.len() implies spans_disjoint(dl[i], dl[j]) by {
            assert(dl[i] == s[i] && dl[j] == s[j]);
        }
        assert forall|k: int| 0 <= k < dl.len() implies spans_disjoint(d, #[trigger] dl[k]) by {
            assert(dl[k] == s[k]);
        }
        lemma_insert_pairwise_disjoint(d, dl);
        lemma_insert_by_start_props(d, dl);
        let t = insert_by_start(d, dl);
        assert(r == t.push(s.last()));
        assert forall|i: int, j: int|
            #![trigger r[i], r[j]]
            0 <= i < j < r.len() implies spans_disjoint(r[i], r[j]) by {
            if j < t.len() {
                assert(r[i] == t[i] && r[j] == t[j]);
            } else {
                assert(r[j] == s.last());
                assert(r[i] == t[i]);
                assert(t.to_multiset().count(t[i]) > 0);
                assert(t.contains(t[i]));
                if dl.contains(t[i]) {
                    let k = choose|k: int| 0 <= k < dl.len() && dl[k] == t[i];
                    assert(dl[k] == s[k]);
                    assert(spans_disjoint(s[k], s.last()));
                } else {
                    assert(t[i] == d);
                    assert(spans_disjoint(d, s[s.len() - 1]));
                }
            }
        }
    } else {
        assert(r == s.push(d));
        assert forall|i: int, j: int|
            #![trigger r[i], r[j]]
            0 <= i < j < r.len() implies spans_disjoint(r[i], r[j]) by {
            if j < s.len() {
                assert(r[i] == s[i] && r[j] == s[j]);
            } else {
                assert(r[i] == s[i] && r[j] == d);
                assert(spans_disjoint(d, s[i]));
            }
        }
    }
}

/// Sorting by start keeps the list free of overlaps.
proof fn lemma_sort_pairwise_disjoint(s: Seq<DetectionView>)
    requires
        pairwise_disjoint(s),
    ensures
        pairwise_disjoint(sort_by_start(s)),
    decreases s.len(),
{
    broadcast use vstd::seq_lib::group_to_multiset_ensures;

    if s.len() > 0 {
        let dl = s.drop_last();
        assert forall|i: int, j: int|
            #![trigger dl[i], dl[j]]
            0 <= i < j < dl.len() implies spans_disjoint(dl[i], dl[j]) by {
            assert(dl[i] == s[i] && dl[j] == s[j]);
        }
        lemma_sort_pairwise_disjoint(dl);
        lemma_sort_by_start_props(dl);
        let t = sort_by_start(dl);
        assert forall|k: int| 0 <= k < t.len() implies spans_disjoint(s.last(), #[trigger] t[k]) by {
            assert(t.to_multiset().count(t[k]) > 0);
            assert(dl.contains(t[k]));
            let m = choose|m: int| 0 <= m < dl.len() && dl[m] == t[k];
            assert(dl[m] == s[m]);
            assert(spans_disjoint(s[m], s[s.len() - 1]));
        }
        lemma_insert_pairwise_disjoint(s.last(), t);
    }
}

/// In a start-ordered list of valid detections without overlaps, each
/// detection ends no later than the next begins.
proof fn lemma_sorted_disjoint_adjacent(s: Seq<DetectionView>, text: Seq<u8>)
    requires
        valid_detections(s, text),
        sorted_by_start(s),
        pairwise_disjoint(s),
    ensures
        forall|k: int| 0 <= k < s.len() - 1 ==> #[trigger] s[k].end <= s[k + 1].start,
{
    assert forall|k: int| 0 <= k < s.len() - 1 implies #[trigger] s[k].end <= s[k + 1].start by {
        assert(spans_disjoint(s[k], s[k + 1]));
        assert(valid_detection(s[k], text));
        assert(valid_detection(s[k + 1], text));
    }
}

/// Law: any valid detection set in which no two spans overlap is redacted
/// by masking every span exactly once, in ascending start order, while the
/// unredacted gaps are copied byte for byte from the source.
pub proof fn lemma_redact_disjoint_set(
    text: Seq<u8>,
    dets: Seq<DetectionView>,
    strategy: RedactionStrategy,
)
    requires
        valid_detections(dets, text),
        pairwise_disjoint(dets),
    ensures
        redact_model(text, dets, strategy) == spliced(text, sort_by_start(dets), strategy, 0, 0),
{
    lemma_sort_by_start_props(dets);
    lemma_sort_by_start_valid(dets, text);
    lemma_sort_pairwise_disjoint(dets);
    lemma_sorted_disjoint_adjacent(sort_by_start(dets), text);
    lemma_redact_disjoint_from(text, sort_by_start(dets), strategy, 0, 0);
}

/// Along a chain of valid, non-overlapping detections, later detections
/// start no earlier than earlier ones end.
proof fn lemma_disjoint_chain(s: Seq<DetectionView>, i: int, j: int)
    requires
        forall|k: int| 0 <= k < s.len() ==> #[trigger] s[k].start < s[k].end,
        forall|k: int| 0 <= k < s.len() - 1 ==> #[trigger] s[k].end <= s[k + 1].start,
        0 <= i < j < s.len(),
    ensures
        s[i].end <= s[j].start,
    decreases j - i,
{
    if j > i + 1 {
        lemma_disjoint_chain(s, i, j - 1);
        assert(s[j - 1].end <= s[j].start);
        assert(s[j - 1].start < s[j - 1].end);
    } else {
        assert(s[i].end <= s[i + 1].start);
    }
}

/// Valid detections in which each ends no later than the next begins are
/// ordered by start position.
proof fn lemma_disjoint_implies_sorted(ds: Seq<DetectionView>, text: Seq<u8>)
    requires
        valid_detections(ds, text),
        forall|k: int| 0 <= k < ds.len() - 1 ==> #[trigger] ds[k].end <= ds[k + 1].start,
    ensures
        sorted_by_start(ds),
{
    assert forall|k: int| 0 <= k < ds.len() implies (#[trigger] ds[k]).start < ds[k].end by {
        assert(valid_detection(ds[k], text));
    }
    assert forall|i: int, j: int| 0 <= i < j < ds.len() implies ds[i].start <= ds[j].start by {
        lemma_disjoint_chain(ds, i, j);
    }
}

/// Law: one pattern's matches never overlap, so redacting exactly what one
/// pattern found masks every match once, in match order, and copies the
/// gaps between them byte for byte.
pub proof fn lemma_redact_single_pattern(
    t: PHIType,
    pat: Seq<char>,
    text: Seq<u8>,
    window: int,
    confidence: u32,
    strategy: RedactionStrategy,
)
    ensures
        ({
            let ds = crate::scanner::detections_of_pattern(t, pat, text, window, confidence);
            redact_model(text, ds, strategy) == spliced(text, ds, strategy, 0, 0)
        }),
{
    crate::scanner::lemma_pattern_detections_disjoint(t, pat, text, window, confidence);
    let ds = crate::scanner::detections_of_pattern(t, pat, text, window, confidence);
    lemma_disjoint_implies_sorted(ds, text);
    lemma_redact_non_overlapping(text, ds, strategy);
}

/// Law: redacting with no detections returns the text unchanged.
pub proof fn lemma_redact_no_detections(text: Seq<u8>, strategy: RedactionStrategy)
    ensures
        redact_model(text, Seq::<DetectionView>::empty(), strategy) == text,
{
    assert(sort_by_start(Seq::<DetectionView>::empty()) =~= Seq::<DetectionView>::empty());
    assert(redact_model(text, Seq::<DetectionView>::empty(), strategy) =~= text);
}

/// Law: redacting the empty text yields the empty text, whatever the
/// detections; the detection invariant admits no span in an empty text, so
/// the list must be empty.
pub proof fn lemma_redact_empty_text(dets: Seq<DetectionView>, strategy: RedactionStrategy)
    requires
        valid_detections(dets, Seq::<u8>::empty()),
    ensures
        dets.len() == 0,
        redact_model(Seq::<u8>::empty(), dets, strategy) == Seq::<u8>::empty(),
{
    if dets.len() > 0 {
        assert(valid_detection(dets[0], Seq::<u8>::empty()));
    }
    assert(dets =~= Seq::<DetectionView>::empty());
    lemma_redact_no_detections(Seq::<u8>::empty(), strategy);
    assert(Seq::<u8>::empty().subrange(0, 0) =~= Seq::<u8>::empty());
}

/// One cluster, scanned: starting after its first member with cover end
/// `ce` and winner index `win`, take in every detection that starts inside
/// the cover, widening the cover and replacing the winner on a strictly
/// wider span.  The result is the index after the cluster, the final cover
/// end, and the final winner.
pub open spec fn cluster_scan(s: Seq<DetectionView>, i: int, ce: int, win: int) -> (int, int, int)
    decreases s.len() - i,
{
    if 0 <= i < s.len() && s[i].start < ce {
        let ce2 = if s[i].end > ce {
            s[i].end
        } else {
            ce
        };
        let win2 = if det_width(s[i]) > det_width(s[win]) {
            i
        } else {
            win
        };
        cluster_scan(s, i + 1, ce2, win2)
    } else {
        (i, ce, win)
    }
}

/// An open cluster closes as `cluster_scan` says: the gap before it copied
/// verbatim, one mask for the final winner, and the walk resuming after it.
proof fn lemma_redact_open_via_cluster_scan(
    text: Seq<u8>,
    s: Seq<DetectionView>,
    strategy: RedactionStrategy,
    i: int,
    last: int,
    cs: int,
    ce: int,
    win: int,
)
    ensures
        ({
            let (j, ce2, w) = cluster_scan(s, i, ce, win);
            redact_open(text, s, strategy, i, last, cs, ce, win) == text.subrange(last, cs)
                + mask_model(strategy, s[w].phi_type, s[w].matched_text) + redact_closed(
                text,
                s,
                strategy,
                j,
                ce2,
            )
        }),
    decreases s.len() - i,
{
    if 0 <= i < s.len() && s[i].start < ce {
        let ce2 = if s[i].end > ce {
            s[i].end
        } else {
            ce
        };
        let win2 = if det_width(s[i]) > det_width(s[win]) {
            i
        } else {
            win
        };
        lemma_redact_open_via_cluster_scan(text, s, strategy, i + 1, last, cs, ce2, win2);
    }
}

/// The winner a cluster scan ends with is a widest member of the cluster,
/// and the first such member: every earlier member is strictly narrower.
proof fn lemma_cluster_scan_winner(s: Seq<DetectionView>, i: int, ce: int, win: int)
    requires
        0 <= win < s.len(),
        0 <= i <= s.len(),
        win < i,
    ensures
        ({
            let (j, ce2, w) = cluster_scan(s, i, ce, win);
            &&& i <= j <= s.len()
            &&& 0 <= w < s.len()
            &&& det_width(s[w]) >= det_width(s[win])
            &&& forall|k: int| i <= k < j ==> det_width(s[w]) >= det_width(s[k])
            &&& (w == win || (i <= w < j && det_width(s[w]) > det_width(s[win])))
            &&& forall|k: int| i <= k < w ==> det_width(s[k]) < det_width(s[w])
        }),
    decreases s.len() - i,
{
    if 0 <= i < s.len() && s[i].start < ce {
        let ce2 = if s[i].end > ce {
            s[i].end
        } else {
            ce
        };
        let win2 = if det_width(s[i]) > det_width(s[win]) {
            i
        } else {
            win
        };
        lemma_cluster_scan_winner(s, i + 1, ce2, win2);
    }
}

/// Law: the keep-longest policy always chooses the widest span.  Wherever
/// the walk over start-ordered detections opens a cluster at index `i`, the
/// emitted mask belongs to a member at least as wide as every member merged
/// into the cluster — and to the earliest such member, so ties keep the
/// earliest start and then the given order.
pub proof fn lemma_keep_longest(
    text: Seq<u8>,
    s: Seq<DetectionView>,
    strategy: RedactionStrategy,
    i: int,
    last: int,
)
    requires
        0 <= i < s.len(),
    ensures
        ({
            let (j, ce, w) = cluster_scan(s, i + 1, s[i].end, i);
            &&& redact_closed(text, s, strategy, i, last) == text.subrange(last, s[i].start)
                + mask_model(strategy, s[w].phi_type, s[w].matched_text) + redact_closed(
                text,
                s,
                strategy,
                j,
                ce,
            )
            &&& i <= w < j || w == i
            &&& det_width(s[w]) >= det_width(s[i])
            &&& forall|k: int| i + 1 <= k < j ==> det_width(s[w]) >= det_width(s[k])
            &&& forall|k: int| i + 1 <= k < w ==> det_width(s[k]) < det_width(s[w])
        }),
{
    lemma_redact_open_via_cluster_scan(text, s, strategy, i + 1, last, s[i].start, s[i].end, i);
    lemma_cluster_scan_winner(s, i + 1, s[i].end, i);
}

/// Law: of two overlapping detections, the keep-longest policy emits one
/// single mask — that of the wider span, the earlier on a tie — covering
/// the union of the two spans, and copies everything around it verbatim.
pub proof fn lemma_keep_longest_pair(
    text: Seq<u8>,
    d1: DetectionView,
    d2: DetectionView,
    strategy: RedactionStrategy,
)
    requires
        valid_detection(d1, text),
        valid_detection(d2, text),
        d1.start <= d2.start,
        d2.start < d1.end,
    ensures
        ({
            let w = if det_width(d2) > det_width(d1) {
                d2
            } else {
                d1
            };
            let ce = if d2.end > d1.end {
                d2.end
            } else {
                d1.end
            };
            redact_model(text, seq![d1, d2], strategy) == text.subrange(0, d1.start) + mask_model(
                strategy,
                w.phi_type,
                w.matched_text,
            ) + text.subrange(ce, text.len() as int)
        }),
{
    let s = seq![d1, d2];
    assert(sorted_by_start(s));
    lemma_sort_of_sorted(s);
    let w = if det_width(d2) > det_width(d1) {
        d2
    } else {
        d1
    };
    let ce = if d2.end > d1.end {
        d2.end
    } else {
        d1.end
    };
    let wi: int = if det_width(d2) > det_width(d1) {
        1
    } else {
        0
    };
    assert(s[wi] == w);
    assert(redact_closed(text, s, strategy, 0, 0) == redact_open(
        text,
        s,
        strategy,
        1,
        0,
        d1.start,
        d1.end,
        0,
    ));
    assert(redact_open(text, s, strategy, 1, 0, d1.start, d1.end, 0) == redact_open(
        text,
        s,
        strategy,
        2,
        0,
        d1.start,
        ce,
        wi,
    ));
    assert(redact_open(text, s, strategy, 2, 0, d1.start, ce, wi) == text.subrange(0, d1.start)
        + mask_model(strategy, w.phi_type, w.matched_text) + redact_closed(
        text,
        s,
        strategy,
        2,
        ce,
    ));
}

/// Append `n` copies of `b` to `out`.
fn push_repeat(out: &mut Vec<u8>, b: u8, n: usize)
    ensures
        final(out)@ == old(out)@ + repeat_byte(b, n as int),
{
    let mut i: usize = 0;
    while i < n
        invariant
            i <= n,
            out@ == old(out)@ + repeat_byte(b, i as int),
        decreases n - i,
    {
        out.push(b);
        i = i + 1;
        proof {
            assert(out@ =~= old(out)@ + repeat_byte(b, i as int));
        }
    }
    proof {
        assert(out@ =~= old(out)@ + repeat_byte(b, n as int));
    }
}

/// Append `m[from..to]` to `out`.
fn push_range(out: &mut Vec<u8>, m: &[u8], from: usize, to: usize)
    requires
        from <= to <= m@.len(),
    ensures
        final(out)@ == old(out)@ + m@.subrange(from as int, to as int),
{
    let mut k: usize = from;
    while k < to
        invariant
            from <= k <= to <= m@.len(),
            out@ == old(out)@ + m@.subrange(from as int, k as int),
        decreases to - k,
    {
        let b = m[k];
        out.push(b);
        k = k + 1;
        proof {
            assert(out@ =~= old(out)@ + m@.subrange(from as int, k as int));
        }
    }
}

/// The least separator position in `m` at or after `from`, or `m.len()`.
fn find_sep(m: &[u8], from: usize) -> (r: usize)
    requires
        from <= m@.len(),
    ensures
        r == sep_after(m@, from as int),
        from <= r <= m@.len(),
{
    let mut k: usize = from;
    while k < m.len()
        invariant
            from <= k <= m@.len(),
            sep_after(m@, from as int) == sep_after(m@, k as int),
        decreases m@.len() - k,
    {
        let b = m[k];
        if b == ('/' as u8) || b == ('-' as u8) {
            return k;
        }
        k = k + 1;
    }
    m.len()
}

impl Redactor {
    /// A redactor that masks under `strategy`.
    pub fn new(strategy: RedactionStrategy) -> (r: Redactor)
        ensures
            r.strategy == strategy,
    {
        Redactor { strategy }
    }

    /// The replacement text for one detected value of category `phi_type`:
    /// pure, position-independent, dispatched on the configured strategy and
    /// the category.
    pub fn redaction_text(&self, phi_type: &PHIType, matched: &[u8]) -> (r: Vec<u8>)
        ensures
            r@ == mask_model(self.strategy, *phi_type, matched@),
    {
        match self.strategy {
            RedactionStrategy::FullReplacement => Self::full_mask(phi_type, matched),
            RedactionStrategy::PartialMasking => Self::partial_mask(phi_type, matched),
            RedactionStrategy::PlaceholderSubstitution => Self::placeholder(phi_type),
        }
    }

    /// The full-replacement mask for one matched value.
    fn full_mask(phi_type: &PHIType, matched: &[u8]) -> (r: Vec<u8>)
        ensures
            r@ == full_mask_model(*phi_type, matched@),
    {
        let mut out: Vec<u8> = Vec::new();
        match phi_type {
            PHIType::SSN => {
                push_repeat(&mut out, 'X' as u8, 3);
                out.push('-' as u8);
                push_repeat(&mut out, 'X' as u8, 2);
                out.push('-' as u8);
                push_repeat(&mut out, 'X' as u8, 4);
                proof {
                    assert(out@ =~= ssn_full_mask());
                }
            },
            PHIType::MedicalRecordNumber => {
                push_repeat(&mut out, 'X' as u8, matched.len());
            },
            PHIType::ICD10 => {
                push_repeat(&mut out, 'X' as u8, matched.len());
            },
            PHIType::DateOfBirth => {
                push_repeat(&mut out, 'X' as u8, 2);
                out.push('/' as u8);
                push_repeat(&mut out, 'X' as u8, 2);
                out.push('/' as u8);
                push_repeat(&mut out, 'X' as u8, 4);
                proof {
                    assert(out@ =~= dob_full_mask());
                }
            },
            PHIType::IndonesianNIK => {
                push_repeat(&mut out, 'X' as u8, 16);
            },
            PHIType::IndonesianBPJS => {
                push_repeat(&mut out, 'X' as u8, 13);
            },
        }
        out
    }

    /// Mask all but the last `keep` bytes with `*`; shorter text is left
    /// unchanged.
    fn suffix_mask_exec(matched: &[u8], keep: usize) -> (r: Vec<u8>)
        ensures
            r@ == suffix_mask(matched@, keep as int),
    {
        if matched.len() > keep {
            let mut out: Vec<u8> = Vec::new();
            push_repeat(&mut out, '*' as u8, matched.len() - keep);
            push_range(&mut out, matched, matched.len() - keep, matched.len());
            proof {
                assert(matched@.subrange(
                    matched@.len() - keep as int,
                    matched@.len() as int,
                ) =~= matched@.skip(matched@.len() - keep as int));
            }
            out
        } else {
            slice_to_vec(matched)
        }
    }

    /// The partial mask for one matched value.
    fn partial_mask(phi_type: &PHIType, matched: &[u8]) -> (r: Vec<u8>)
        ensures
            r@ == partial_mask_model(*phi_type, matched@),
    {
        match phi_type {
            PHIType::SSN => {
                if matched.len() == 11 && matched[3] == ('-' as u8) && matched[6] == ('-' as u8) {
                    let mut out: Vec<u8> = Vec::new();
                    push_repeat(&mut out, '*' as u8, 3);
                    out.push('-' as u8);
                    push_repeat(&mut out, '*' as u8, 2);
                    out.push('-' as u8);
                    push_range(&mut out, matched, 7, 11);
                    proof {
                        assert(matched@.subrange(7, 11) =~= matched@.skip(7));
                        assert(out@ =~= ssn_partial_mask(matched@));
                    }
                    out
                } else {
                    Self::suffix_mask_exec(matched, 4)
                }
            },
            PHIType::MedicalRecordNumber => Self::suffix_mask_exec(matched, 4),
            PHIType::ICD10 => {
                if matched.len() > 0 {
                    let mut out: Vec<u8> = Vec::new();
                    let b0 = matched[0];
                    out.push(b0);
                    push_repeat(&mut out, '*' as u8, matched.len() - 1);
                    proof {
                        assert(out@ =~= icd10_partial_mask(matched@));
                    }
                    out
                } else {
                    slice_to_vec(matched)
                }
            },
            PHIType::DateOfBirth => Self::dob_partial(matched),
            PHIType::IndonesianNIK => Self::suffix_mask_exec(matched, 8),
            PHIType::IndonesianBPJS => Self::suffix_mask_exec(matched, 6),
        }
    }

    /// The partial mask for a date: `**/**/` + the year part, or the text
    /// unchanged when it does not split into three parts.
    fn dob_partial(matched: &[u8]) -> (r: Vec<u8>)
        ensures
            r@ == dob_partial_mask(matched@),
    {
        let i1 = find_sep(matched, 0);
        if matched.len() >= 4 && i1 < matched.len() {
            let i2 = find_sep(matched, i1 + 1);
            if i2 < matched.len() {
                let i3 = find_sep(matched, i2 + 1);
                let mut out: Vec<u8> = Vec::new();
                push_repeat(&mut out, '*' as u8, 2);
                out.push('/' as u8);
                push_repeat(&mut out, '*' as u8, 2);
                out.push('/' as u8);
                let ghost mask_head = seq![
                    '*' as u8,
                    '*' as u8,
                    '/' as u8,
                    '*' as u8,
                    '*' as u8,
                    '/' as u8,
                ];
                proof {
                    assert(out@ =~= mask_head);
                }
                if i1 == 4 {
                    push_range(&mut out, matched, 0, 4);
                    proof {
                        assert(matched@.subrange(0, 4) =~= matched@.take(4));
                    }
                } else {
                    push_range(&mut out, matched, i2 + 1, i3);
                }
                out
            } else {
                slice_to_vec(matched)
            }
        } else {
            slice_to_vec(matched)
        }
    }

    /// The indices of `dets` arranged by ascending start position, ties
    /// keeping the original order.
    fn sort_indices(dets: &[Detection]) -> (perm: Vec<usize>)
        ensures
            perm@.len() == dets@.len(),
            forall|k: int| 0 <= k < perm@.len() ==> perm@[k] < dets@.len(),
            Seq::new(perm@.len() as nat, |k: int| dets@[perm@[k] as int]@) == sort_by_start(
                views_of(dets@),
            ),
    {
        let ghost dvs = views_of(dets@);
        let mut perm: Vec<usize> = Vec::new();
        proof {
            assert(Seq::new(perm@.len() as nat, |k: int| dets@[perm@[k] as int]@) =~= sort_by_start(
                dvs.take(0),
            ));
        }
        let mut i: usize = 0;
        while i < dets.len()
            invariant
                i <= dets@.len(),
                perm@.len() == i,
                dvs == views_of(dets@),
                forall|k: int| 0 <= k < perm@.len() ==> perm@[k] < dets@.len(),
                Seq::new(perm@.len() as nat, |k: int| dets@[perm@[k] as int]@) == sort_by_start(
                    dvs.take(i as int),
                ),
            decreases dets@.len() - i,
        {
            let ghost prefix = dvs.take(i as int);
            let ghost prev_sorted = sort_by_start(prefix);
            let ghost d = dvs[i as int];
            proof {
                lemma_sort_by_start_props(prefix);
            }
            let d_start = dets[i].start;
            let mut j: usize = i;
            while j > 0 && dets[perm[j - 1]].start > d_start
                invariant
                    j <= i,
                    perm@.len() == i,
                    i < dets@.len(),
                    dvs == views_of(dets@),
                    d == dvs[i as int],
                    d_start as int == d.start,
                    forall|k: int| 0 <= k < perm@.len() ==> perm@[k] < dets@.len(),
                    prev_sorted == Seq::new(
                        perm@.len() as nat,
                        |k: int| dets@[perm@[k] as int]@,
                    ),
                    forall|t: int| j <= t < i ==> prev_sorted[t].start > d.start,
                decreases j,
            {
                j = j - 1;
                proof {
                    assert(prev_sorted[j as int] == dets@[perm@[j as int] as int]@);
                }
            }
            proof {
                lemma_insert_at_position(d, prev_sorted, j as int);
            }
            perm.insert(j, i);
            i = i + 1;
            proof {
                assert(dvs.take(i as int).drop_last() =~= prefix);
                assert(dvs.take(i as int).last() == d);
                assert(sort_by_start(dvs.take(i as int)) == insert_by_start(d, prev_sorted));
                assert(Seq::new(perm@.len() as nat, |k: int| dets@[perm@[k] as int]@)
                    =~= prev_sorted.take(j as int) + seq![d] + prev_sorted.skip(j as int));
            }
        }
        proof {
            assert(dvs.take(dets@.len() as int) =~= dvs);
        }
        perm
    }

    /// Rewrite `text`, replacing every detected span under the configured
    /// masking strategy.  Detections are ordered by start position (ties
    /// keep their given order); runs of detections whose spans overlap are
    /// replaced by one mask, that of the widest member (ties go to the
    /// earliest start, then the earliest in the given order), covering the
    /// union of the run's spans; everything else is copied verbatim.
    pub fn redact(&self, text: &[u8], detections: &[Detection]) -> (r: Vec<u8>)
        requires
            valid_detections(views_of(detections@), text@),
        ensures
            r@ == redact_model(text@, views_of(detections@), self.strategy),
    {
        let ghost dvs = views_of(detections@);
        let ghost s = sort_by_start(dvs);
        let ghost total = redact_closed(text@, s, self.strategy, 0, 0);
        proof {
            lemma_sort_by_start_props(dvs);
            lemma_sort_by_start_valid(dvs, text@);
        }
        let perm = Self::sort_indices(detections);
        let n = perm.len();
        let mut out: Vec<u8> = Vec::new();
        let mut last: usize = 0;
        let mut i: usize = 0;
        while i < n
            invariant
                n == perm@.len(),
                perm@.len() == detections@.len(),
                forall|k: int| 0 <= k < perm@.len() ==> perm@[k] < detections@.len(),
                Seq::new(perm@.len() as nat, |k: int| detections@[perm@[k] as int]@) == s,
                dvs == views_of(detections@),
                s == sort_by_start(dvs),
                sorted_by_start(s),
                valid_detections(s, text@),
                total == redact_closed(text@, s, self.strategy, 0, 0),
                i <= n,
                last <= text@.len(),
                i < n ==> last as int <= s[i as int].start,
                out@ + redact_closed(text@, s, self.strategy, i as int, last as int) == total,
            decreases n - i,
        {
            let di = perm[i];
            let cs = detections[di].start;
            let mut ce = detections[di].end;
            let mut win: usize = i;
            let ghost i0 = i as int;
            proof {
                assert(s[i0] == detections@[di as int]@);
                assert(valid_detection(s[i0], text@));
            }
            i = i + 1;
            while i < n && detections[perm[i]].start < ce
                invariant
                    n == perm@.len(),
                    perm@.len() == detections@.len(),
                    forall|k: int| 0 <= k < perm@.len() ==> perm@[k] < detections@.len(),
                    Seq::new(perm@.len() as nat, |k: int| detections@[perm@[k] as int]@) == s,
                    dvs == views_of(detections@),
                    s == sort_by_start(dvs),
                    sorted_by_start(s),
                    valid_detections(s, text@),
                    total == redact_closed(text@, s, self.strategy, 0, 0),
                    0 < i <= n,
                    win < i,
                    last as int <= cs as int,
                    cs < ce,
                    ce <= text@.len(),
                    out@ + redact_open(
                        text@,
                        s,
                        self.strategy,
                        i as int,
                        last as int,
                        cs as int,
                        ce as int,
                        win as int,
                    ) == total,
                decreases n - i,
            {
                let dj = perm[i];
                proof {
                    assert(s[i as int] == detections@[dj as int]@);
                    assert(valid_detection(s[i as int], text@));
                    assert(s[win as int] == detections@[perm@[win as int] as int]@);
                    assert(valid_detection(s[win as int], text@));
                }
                let wi = perm[win];
                let wlen = detections[wi].end - detections[wi].start;
                let jlen = detections[dj].end - detections[dj].start;
                if jlen > wlen {
                    win = i;
                }
                if detections[dj].end > ce {
                    ce = detections[dj].end;
                }
                i = i + 1;
            }
            proof {
                assert(s[win as int] == detections@[perm@[win as int] as int]@);
                assert(valid_detection(s[win as int], text@));
            }
            let ghost out_before = out@;
            push_range(&mut out, text, last, cs);
            let w = perm[win];
            let mask = self.redaction_text(
                &detections[w].phi_type,
                detections[w].matched_text.as_slice(),
            );
            let mut mask_vec = mask;
            out.append(&mut mask_vec);
            proof {
                assert(out@ =~= out_before + (text@.subrange(last as int, cs as int) + mask_model(
                    self.strategy,
                    s[win as int].phi_type,
                    s[win as int].matched_text,
                )));
            }
            last = ce;
        }
        push_range(&mut out, text, last, text.len());
        proof {
            assert(out@ =~= total);
        }
        out
    }

    /// The fixed placeholder token for a category.
    fn placeholder(phi_type: &PHIType) -> (r: Vec<u8>)
        ensures
            r@ == placeholder_model(*phi_type),
    {
        let mut out: Vec<u8> = Vec::new();
        out.push('[' as u8);
        out.push('R' as u8);
        out.push('E' as u8);
        out.push('D' as u8);
        out.push('A' as u8);
        out.push('C' as u8);
        out.push('T' as u8);
        out.push('E' as u8);
        out.push('D' as u8);
        out.push('-' as u8);
        match phi_type {
            PHIType::SSN => {
                out.push('S' as u8);
                out.push('S' as u8);
                out.push('N' as u8);
            },
            PHIType::MedicalRecordNumber => {
                out.push('M' as u8);
                out.push('R' as u8);
                out.push('N' as u8);
            },
            PHIType::ICD10 => {
                out.push('I' as u8);
                out.push('C' as u8);
                out.push('D' as u8);
                out.push('1' as u8);
                out.push('0' as u8);
            },
            PHIType::DateOfBirth => {
                out.push('D' as u8);
                out.push('O' as u8);
                out.push('B' as u8);
            },
            PHIType::IndonesianNIK => {
                out.push('N' as u8);
                out.push('I' as u8);
                out.push('K' as u8);
            },
            PHIType::IndonesianBPJS => {
                out.push('B' as u8);
                out.push('P' as u8);
                out.push('J' as u8);
                out.push('S' as u8);
            },
        }
        out.push(']' as u8);
        proof {
            assert(out@ =~= placeholder_model(*phi_type));
        }
        out
    }
}

} // verus!
