//! Aggregated results of a detection run, as a reporting layer consumes
//! them: one record per detection, and per-run summary statistics.

use crate::phi_patterns::PHIType;
use crate::phi_patterns::PHI_TYPE_COUNT;
use vstd::prelude::*;

verus! {

/// One detection prepared for a report: where it was found, what category
/// it belongs to, its byte span `location`, the surrounding context, the
/// matched text, and the replacement text when redaction was performed.
#[derive(Debug)]
pub struct DetectionResult {
    pub file_path: String,
    pub phi_type: PHIType,
    pub location: (usize, usize),
    pub context: String,
    pub matched_text: String,
    pub redacted_text: Option<String>,
}

/// Summary statistics for a detection run.  Counts per category sit in a
/// fixed table with one slot per category, indexed by `PHIType::index`.
#[derive(Debug)]
pub struct ResultsSummary {
    pub files_processed: usize,
    pub total_detections: usize,
    pub detections_by_type: Vec<usize>,
    pub redacted_count: usize,
    pub errors: Vec<String>,
}

impl ResultsSummary {
    /// The category table has exactly one slot per category.
    pub open spec fn wf(&self) -> bool {
        self.detections_by_type@.len() == PHI_TYPE_COUNT
    }

    /// A summary with nothing counted yet.
    pub fn new() -> (r: ResultsSummary)
        ensures
            r.wf(),
            r.files_processed == 0,
            r.total_detections == 0,
            r.redacted_count == 0,
            r.errors@.len() == 0,
            forall|i: int| 0 <= i < PHI_TYPE_COUNT ==> r.detections_by_type@[i] == 0,
    {
        let mut counts: Vec<usize> = Vec::new();
        let mut i: usize = 0;
        while i < PHI_TYPE_COUNT
            invariant
                i <= PHI_TYPE_COUNT,
                counts@.len() == i,
                forall|k: int| 0 <= k < i ==> counts@[k] == 0,
            decreases PHI_TYPE_COUNT - i,
        {
            counts.push(0);
            i = i + 1;
        }
        ResultsSummary {
            files_processed: 0,
            total_detections: 0,
            detections_by_type: counts,
            redacted_count: 0,
            errors: Vec::new(),
        }
    }

    /// Count one detection of category `t`.
    pub fn record_detection(&mut self, t: &PHIType)
        requires
            old(self).wf(),
            old(self).detections_by_type@[t.index_spec()] < usize::MAX,
        ensures
            final(self).wf(),
            final(self).detections_by_type@ == old(self).detections_by_type@.update(
                t.index_spec(),
                (old(self).detections_by_type@[t.index_spec()] + 1) as usize,
            ),
            final(self).files_processed == old(self).files_processed,
            final(self).total_detections == old(self).total_detections,
            final(self).redacted_count == old(self).redacted_count,
            final(self).errors == old(self).errors,
    {
        let i = t.index();
        let c = self.detections_by_type[i];
        self.detections_by_type.set(i, c + 1);
    }

    /// How many detections of category `t` were counted.
    pub fn count_for(&self, t: &PHIType) -> (r: usize)
        requires
            self.wf(),
        ensures
            r == self.detections_by_type@[t.index_spec()],
    {
        let i = t.index();
        self.detections_by_type[i]
    }
}

impl Default for ResultsSummary {
    /// The same empty summary as [`ResultsSummary::new`].
    fn default() -> (r: ResultsSummary)
        ensures
            r.wf(),
            r.files_processed == 0,
            r.total_detections == 0,
            r.redacted_count == 0,
            r.errors@.len() == 0,
            forall|i: int| 0 <= i < PHI_TYPE_COUNT ==> r.detections_by_type@[i] == 0,
    {
        ResultsSummary::new()
    }
}

/// Everything a run reports: the detection records and the summary.
#[derive(Debug)]
pub struct OutputBundle {
    pub results: Vec<DetectionResult>,
    pub summary: ResultsSummary,
}

} // verus!
