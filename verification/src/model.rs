//! The results handed to the user interface: stream summary, NAL unit
//! detail, hex window and parameter-set comparison.

use vstd::prelude::*;
use crate::h264::common::FieldGroup;

verus! {

/// One NAL unit of the stream list.
#[derive(Debug, Clone)]
pub struct NaluSummary {
    pub index: usize,
    /// Offset of the start code in the stream.
    pub offset: usize,
    /// Length of the NAL unit data (start code excluded, header included).
    pub size: usize,
    pub start_code_len: usize,
    pub nal_type: u8,
    pub type_label: String,
    pub ref_idc: u8,
    pub is_idr: bool,
    pub preview: String,
}

/// Statistics of a stream.
#[derive(Debug, Clone)]
pub struct StreamStats {
    pub total_size: usize,
    pub nalu_count: usize,
    /// Number of NAL units of each type name, most frequent first.
    pub counts: Vec<(String, usize)>,
    pub idr_count: usize,
    pub profile: Option<String>,
    pub level: Option<String>,
    pub resolution: Option<String>,
    /// "annexb" (elementary stream) or "mp4" (extracted to Annex B).
    pub source_format: String,
    /// The scan stopped at its NAL unit limit.
    pub truncated: bool,
}

/// The NAL unit list of a stream and its statistics.
#[derive(Debug, Clone)]
pub struct ParseResult {
    pub nalus: Vec<NaluSummary>,
    pub stats: StreamStats,
}

/// The parsed content of one NAL unit.
#[derive(Debug, Clone)]
pub struct NaluDetail {
    pub index: usize,
    pub type_label: String,
    pub groups: Vec<FieldGroup>,
    pub warnings: Vec<String>,
    /// The RBSP payload after the header byte, in hexadecimal.
    pub rbsp_hex: String,
}

/// A window of raw file bytes.
#[derive(Debug, Clone)]
pub struct HexData {
    pub offset: usize,
    pub bytes: Vec<u8>,
    pub file_size: usize,
}

/// One compared field of two parameter-set tables.
#[derive(Debug, Clone)]
pub struct DiffRow {
    pub section: String,
    pub name: String,
    pub value_a: String,
    pub value_b: String,
    pub same: bool,
    pub desc: Option<String>,
}

/// The field-by-field comparison of the parameter sets of two streams.
#[derive(Debug, Clone)]
pub struct SpsCompare {
    pub diff_count: usize,
    pub rows: Vec<DiffRow>,
    pub note_a: String,
    pub note_b: String,
}

} // verus!
