//! Pre-parsed mapping records, as handed over by the caller's tokenizer.

use vstd::prelude::*;

verus! {

/// The line information carried by a `Method` record: the obfuscated range
/// `startline..=endline` and, optionally, where that range begins and ends
/// in the original source.
#[derive(Clone, Copy, Debug, PartialEq, Eq)]
pub struct LineMapping {
    pub startline: usize,
    pub endline: usize,
    pub original_startline: Option<usize>,
    pub original_endline: Option<usize>,
}

/// One record of the mapping stream.  Record kinds other than `Class` and
/// `Method` do not contribute to the index; the caller collapses them (and
/// records it failed to parse) into `Other`.
#[derive(Clone, Debug, PartialEq, Eq)]
pub enum ProguardRecord {
    Class {
        original: String,
        obfuscated: String,
    },
    Method {
        original: String,
        obfuscated: String,
        original_class: Option<String>,
        line_mapping: Option<LineMapping>,
    },
    Other,
}

/// Line numbers a `Method` record may carry without driving the line
/// remapping arithmetic out of `usize`: the obfuscated range is 1-based,
/// and remapping the largest line of the range stays representable.
pub open spec fn line_mapping_ok(lm: LineMapping) -> bool {
    &&& 1 <= lm.startline
    &&& 1 <= lm.endline
    &&& match (lm.original_startline, lm.original_endline) {
        (Some(os), Some(_)) => lm.endline < lm.startline || os + lm.endline - lm.startline
            <= usize::MAX,
        _ => true,
    }
}

/// What the index builder asks of one record.
pub open spec fn record_ok(r: ProguardRecord) -> bool {
    match r {
        ProguardRecord::Method { line_mapping: Some(lm), .. } => line_mapping_ok(lm),
        _ => true,
    }
}

} // verus!
