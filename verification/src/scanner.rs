//! The scanner: locate every match of every registered pattern in a
//! document.
//!
//! For each pattern, in registry order, the scanner runs repeated leftmost
//! searches over the whole text and records one detection per non-empty
//! match, together with a clipped window of surrounding context.  Detections
//! of different patterns may overlap; resolving that is the redactor's job.

use crate::matcher::find_span;
use crate::phi_patterns::PHIPattern;
use crate::phi_patterns::PHIType;
use crate::phi_patterns::pattern_spec_of;
use vstd::prelude::*;
use vstd::slice::slice_subrange;
use vstd::slice::slice_to_vec;

verus! {

/// The confidence (as a percentage) attached to every detection of a scan.
pub const DEFAULT_CONFIDENCE: u32 = 100;

/// One located occurrence of a pattern: the matched bytes, the half-open
/// byte span `[start, end)` where they sit in the scanned text, the category
/// of the pattern, the scan's confidence (a percentage), and the surrounding
/// context bytes.
#[derive(Debug, Clone)]
pub struct Detection {
    pub matched_text: Vec<u8>,
    pub start: usize,
    pub end: usize,
    pub phi_type: PHIType,
    pub confidence: u32,
    pub context: Vec<u8>,
}

/// The mathematical content of a [`Detection`].
pub struct DetectionView {
    pub matched_text: Seq<u8>,
    pub start: int,
    pub end: int,
    pub phi_type: PHIType,
    pub confidence: u32,
    pub context: Seq<u8>,
}

impl View for Detection {
    type V = DetectionView;

    open spec fn view(&self) -> DetectionView {
        DetectionView {
            matched_text: self.matched_text@,
            start: self.start as int,
            end: self.end as int,
            phi_type: self.phi_type,
            confidence: self.confidence,
            context: self.context@,
        }
    }
}

/// The views of a sequence of detections.
pub open spec fn views_of(dets: Seq<Detection>) -> Seq<DetectionView> {
    dets.map_values(|d: Detection| d@)
}

/// The invariant every detection holds of the text it was found in: a
/// non-empty span inside the text whose slice is exactly the matched bytes.
pub open spec fn valid_detection(d: DetectionView, text: Seq<u8>) -> bool {
    &&& 0 <= d.start < d.end <= text.len()
    &&& d.matched_text == text.subrange(d.start, d.end)
}

/// All detections in the sequence are valid for `text`.
pub open spec fn valid_detections(dets: Seq<DetectionView>, text: Seq<u8>) -> bool {
    forall|i: int| 0 <= i < dets.len() ==> valid_detection(#[trigger] dets[i], text)
}

/// The context window around `[start, end)`: up to `window` bytes on either
/// side, clipped at the text boundaries.
pub open spec fn context_of(text: Seq<u8>, start: int, end: int, window: int) -> Seq<u8> {
    let lo = if start - window >= 0 {
        start - window
    } else {
        0
    };
    let hi = if end + window <= text.len() {
        end + window
    } else {
        text.len() as int
    };
    text.subrange(lo, hi)
}

/// Where the search resumes after the engine reported the span `[s, e)` for
/// a search that started at `from`: past the match, or one step forward when
/// the match was empty.
pub open spec fn next_search_pos(from: int, e: int) -> int {
    if e > from {
        e
    } else {
        from + 1
    }
}

/// Every span the pattern `pat` reports over `text` searching from `from`
/// on: repeated leftmost search, empty spans dropped.
pub open spec fn pattern_spans(pat: Seq<char>, text: Seq<u8>, from: int) -> Seq<(int, int)>
    decreases text.len() + 1 - from,
{
    if !(0 <= from <= text.len()) {
        Seq::empty()
    } else {
        match find_span(pat, text, from) {
            None => Seq::empty(),
            Some(sp) => {
                if from <= sp.0 <= sp.1 <= text.len() {
                    let rest = pattern_spans(pat, text, next_search_pos(from, sp.1));
                    if sp.0 < sp.1 {
                        seq![sp] + rest
                    } else {
                        rest
                    }
                } else {
                    Seq::empty()
                }
            },
        }
    }
}

/// The detection recorded for the span `sp` of a pattern of category `t`.
pub open spec fn detection_for(
    t: PHIType,
    text: Seq<u8>,
    sp: (int, int),
    window: int,
    confidence: u32,
) -> DetectionView {
    DetectionView {
        matched_text: text.subrange(sp.0, sp.1),
        start: sp.0,
        end: sp.1,
        phi_type: t,
        confidence,
        context: context_of(text, sp.0, sp.1, window),
    }
}

/// All detections of one pattern over `text`, in match order.
pub open spec fn detections_of_pattern(
    t: PHIType,
    pat: Seq<char>,
    text: Seq<u8>,
    window: int,
    confidence: u32,
) -> Seq<DetectionView> {
    pattern_spans(pat, text, 0).map_values(
        |sp: (int, int)| detection_for(t, text, sp, window, confidence),
    )
}

/// The detections of the first `n` registered patterns, concatenated in
/// registry order.
pub open spec fn scan_model_upto(
    pats: Seq<(PHIType, Seq<char>)>,
    text: Seq<u8>,
    window: int,
    confidence: u32,
    n: int,
) -> Seq<DetectionView>
    decreases n,
{
    if n <= 0 {
        Seq::empty()
    } else {
        scan_model_upto(pats, text, window, confidence, n - 1) + detections_of_pattern(
            pats[n - 1].0,
            pats[n - 1].1,
            text,
            window,
            confidence,
        )
    }
}

/// What a scan returns: the detections of every registered pattern,
/// pattern by pattern in registry order.
pub open spec fn scan_model(
    pats: Seq<(PHIType, Seq<char>)>,
    text: Seq<u8>,
    window: int,
    confidence: u32,
) -> Seq<DetectionView> {
    scan_model_upto(pats, text, window, confidence, pats.len() as int)
}

/// The spans one pattern reports, searching from `from` on, sit between
/// `from` and the end of the text, are non-empty, and each ends no later
/// than the next begins.
proof fn lemma_pattern_spans_disjoint(pat: Seq<char>, text: Seq<u8>, from: int)
    ensures
        forall|k: int| 0 <= k < pattern_spans(pat, text, from).len() ==> {
            let sp = #[trigger] pattern_spans(pat, text, from)[k];
            from <= sp.0 < sp.1 <= text.len()
        },
        forall|k: int|
            0 <= k < pattern_spans(pat, text, from).len() - 1 ==> #[trigger] pattern_spans(
                pat,
                text,
                from,
            )[k].1 <= pattern_spans(pat, text, from)[k + 1].0,
    decreases text.len() + 1 - from,
{
    if 0 <= from <= text.len() {
        match find_span(pat, text, from) {
            None => {},
            Some(sp) => {
                if from <= sp.0 <= sp.1 <= text.len() {
                    let next = next_search_pos(from, sp.1);
                    lemma_pattern_spans_disjoint(pat, text, next);
                    let rest = pattern_spans(pat, text, next);
                    if sp.0 < sp.1 {
                        let spans = pattern_spans(pat, text, from);
                        assert(spans =~= seq![sp] + rest);
                        assert forall|k: int| 0 <= k < spans.len() - 1 implies spans[k].1
                            <= spans[k + 1].0 by {
                            if k == 0 {
                                assert(spans[1] == rest[0]);
                            } else {
                                assert(spans[k] == rest[k - 1]);
                                assert(spans[k + 1] == rest[k]);
                                assert(rest[k - 1].1 <= rest[k].0);
                            }
                        }
                    }
                }
            },
        }
    }
}

/// Law: one pattern never produces overlapping detections.  A single
/// find-all pass yields valid detections in match order, each of which ends
/// no later than the next begins.
pub proof fn lemma_pattern_detections_disjoint(
    t: PHIType,
    pat: Seq<char>,
    text: Seq<u8>,
    window: int,
    confidence: u32,
)
    ensures
        valid_detections(detections_of_pattern(t, pat, text, window, confidence), text),
        forall|k: int|
            0 <= k < detections_of_pattern(t, pat, text, window, confidence).len() - 1
                ==> #[trigger] detections_of_pattern(t, pat, text, window, confidence)[k].end
                <= detections_of_pattern(t, pat, text, window, confidence)[k + 1].start,
{
    lemma_pattern_spans_disjoint(pat, text, 0);
    let spans = pattern_spans(pat, text, 0);
    let ds = detections_of_pattern(t, pat, text, window, confidence);
    assert forall|k: int| 0 <= k < ds.len() implies valid_detection(#[trigger] ds[k], text) by {
        assert(spans[k] == pattern_spans(pat, text, 0)[k]);
        assert(ds[k] == detection_for(t, text, spans[k], window, confidence));
    }
    assert forall|k: int| 0 <= k < ds.len() - 1 implies (#[trigger] ds[k]).end <= ds[k + 1].start by {
        assert(spans[k] == pattern_spans(pat, text, 0)[k]);
        assert(spans[k + 1] == pattern_spans(pat, text, 0)[k + 1]);
    }
}

/// A scanner: an immutable pattern registry plus the context window width.
pub struct Scanner {
    patterns: Vec<PHIPattern>,
    context_window: usize,
}

impl Scanner {
    /// The categories and pattern sources of the registered patterns, in
    /// registry order.
    pub closed spec fn patterns_model(&self) -> Seq<(PHIType, Seq<char>)> {
        self.patterns@.map_values(|p: PHIPattern| pattern_spec_of(p))
    }

    /// The context window width.
    pub closed spec fn window(&self) -> int {
        self.context_window as int
    }

    /// A scanner over the given patterns that captures `context_window`
    /// bytes of context on either side of each match.
    pub fn new(patterns: Vec<PHIPattern>, context_window: usize) -> (r: Scanner)
        ensures
            r.patterns_model() == patterns@.map_values(|p: PHIPattern| pattern_spec_of(p)),
            r.window() == context_window as int,
    {
        Scanner { patterns, context_window }
    }

    /// The bytes around `[start, end)`, up to `window` on either side,
    /// clipped at the text boundaries.
    fn extract_context(text: &[u8], start: usize, end: usize, window: usize) -> (r: Vec<u8>)
        requires
            start <= end <= text@.len(),
        ensures
            r@ == context_of(text@, start as int, end as int, window as int),
    {
        let left = if start >= window {
            start - window
        } else {
            0
        };
        let right = if window <= text.len() - end {
            end + window
        } else {
            text.len()
        };
        slice_to_vec(slice_subrange(text, left, right))
    }

    /// Scan `text` with every registered pattern and return all detections,
    /// pattern by pattern in registry order.  Every returned detection is
    /// valid for `text`: a non-empty span whose slice equals the matched
    /// bytes.
    pub fn scan(&self, text: &[u8]) -> (r: Vec<Detection>)
        ensures
            views_of(r@) == scan_model(
                self.patterns_model(),
                text@,
                self.window(),
                DEFAULT_CONFIDENCE,
            ),
            valid_detections(views_of(r@), text@),
    {
        let ghost pm = self.patterns_model();
        let ghost w = self.window();
        let mut detections: Vec<Detection> = Vec::new();
        let n = self.patterns.len();
        let mut pi: usize = 0;
        proof {
            assert(views_of(detections@) =~= scan_model_upto(pm, text@, w, DEFAULT_CONFIDENCE, 0));
        }
        while pi < n
            invariant
                n == self.patterns@.len(),
                pm == self.patterns_model(),
                w == self.window(),
                pi <= n,
                views_of(detections@) == scan_model_upto(
                    pm,
                    text@,
                    w,
                    DEFAULT_CONFIDENCE,
                    pi as int,
                ),
                valid_detections(views_of(detections@), text@),
            decreases n - pi,
        {
            let pat = &self.patterns[pi];
            let ghost t = pat.phi_type;
            let ghost ps = pat.regex.source();
            proof {
                assert(pm[pi as int] == pattern_spec_of(self.patterns@[pi as int]));
            }
            let ghost before = views_of(detections@);
            let mut from: usize = 0;
            loop
                invariant
                    n == self.patterns@.len(),
                    pi < n,
                    pat == &self.patterns@[pi as int],
                    t == pat.phi_type,
                    ps == pat.regex.source(),
                    w == self.window(),
                    0 <= from <= text@.len(),
                    before + detections_of_pattern(t, ps, text@, w, DEFAULT_CONFIDENCE)
                        == views_of(detections@) + pattern_spans(ps, text@, from as int).map_values(
                        |sp: (int, int)| detection_for(t, text@, sp, w, DEFAULT_CONFIDENCE),
                    ),
                    valid_detections(views_of(detections@), text@),
                ensures
                    views_of(detections@) == before + detections_of_pattern(
                        t,
                        ps,
                        text@,
                        w,
                        DEFAULT_CONFIDENCE,
                    ),
                    valid_detections(views_of(detections@), text@),
                decreases text@.len() - from,
            {
                match pat.regex.find_at(text, from) {
                    None => {
                        proof {
                            assert(pattern_spans(ps, text@, from as int) =~= Seq::<(int, int)>::empty());
                        }
                        break;
                    },
                    Some((s, e)) => {
                        let ghost spans_here = pattern_spans(ps, text@, from as int);
                        let ghost rest = pattern_spans(
                            ps,
                            text@,
                            next_search_pos(from as int, e as int),
                        );
                        if s < e {
                            let matched = slice_to_vec(slice_subrange(text, s, e));
                            let context = Self::extract_context(text, s, e, self.context_window);
                            let det = Detection {
                                matched_text: matched,
                                start: s,
                                end: e,
                                phi_type: pat.phi_type,
                                confidence: DEFAULT_CONFIDENCE,
                                context,
                            };
                            proof {
                                assert(det@ == detection_for(
                                    t,
                                    text@,
                                    (s as int, e as int),
                                    w,
                                    DEFAULT_CONFIDENCE,
                                ));
                                assert(spans_here =~= seq![(s as int, e as int)] + rest);
                            }
                            let ghost prev_views = views_of(detections@);
                            detections.push(det);
                            proof {
                                assert(views_of(detections@) =~= prev_views.push(det@));
                                assert(valid_detection(det@, text@));
                                assert forall|i: int|
                                    0 <= i < views_of(detections@).len() implies valid_detection(
                                    #[trigger] views_of(detections@)[i],
                                    text@,
                                ) by {
                                    if i < prev_views.len() {
                                        assert(views_of(detections@)[i] == prev_views[i]);
                                    } else {
                                        assert(views_of(detections@)[i] == det@);
                                    }
                                }
                                assert(spans_here.map_values(
                                    |sp: (int, int)| detection_for(t, text@, sp, w, DEFAULT_CONFIDENCE),
                                ) =~= seq![det@] + rest.map_values(
                                    |sp: (int, int)| detection_for(t, text@, sp, w, DEFAULT_CONFIDENCE),
                                ));
                            }
                        } else {
                            proof {
                                assert(spans_here =~= rest);
                            }
                        }
                        if e > from {
                            from = e;
                        } else {
                            if from == text.len() {
                                proof {
                                    assert(rest =~= Seq::<(int, int)>::empty());
                                }
                                break;
                            }
                            from = from + 1;
                        }
                    },
                }
            }
            pi = pi + 1;
            proof {
                assert(views_of(detections@) =~= scan_model_upto(
                    pm,
                    text@,
                    w,
                    DEFAULT_CONFIDENCE,
                    pi as int,
                ));
            }
        }
        detections
    }
}

} // verus!
