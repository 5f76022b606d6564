//! The analysable form of an opened file (an Annex B stream with the
//! positions of its NAL units) and windows of its raw bytes.

use vstd::prelude::*;
use crate::h264::nal::{RawNal, MAX_NALUS, is_annexb, is_mp4, mp4_head, next_start_code, scan_annexb, scan_nals};
use crate::model::HexData;
use crate::text::{dec_chars, num_seq, num_text, push_dec};
use crate::mp4::{extract_annexb_bytes, extract_from, nodes_are, Mp4BoxNode};

verus! {

/// An opened file as an Annex B stream: its bytes, where they came from
/// ("annexb" or "mp4") and its NAL units, scanned once.
#[derive(Debug)]
pub struct StreamEntry {
    pub data: Vec<u8>,
    pub source: String,
    pub nals: Vec<RawNal>,
}

/// The NAL units that a scan of `d` lists.
pub open spec fn scanned(d: Seq<u8>) -> Seq<RawNal> {
    if scan_nals(d, 0).len() <= MAX_NALUS {
        scan_nals(d, 0)
    } else {
        scan_nals(d, 0).take(MAX_NALUS as int)
    }
}

/// `e` holds stream `d` from `source`, with its NAL units.
pub open spec fn entry_is(e: StreamEntry, d: Seq<u8>, source: Seq<char>) -> bool {
    &&& e.data@ == d
    &&& e.source@ == source
    &&& e.nals@ == scanned(d)
}

/// The entry of an Annex B stream.
pub fn build_entry(stream: Vec<u8>, source: &str) -> (r: Result<StreamEntry, String>)
    ensures
        r is Ok && entry_is(r->Ok_0, stream@, source@),
{
    let nals = scan_annexb(stream.as_slice());
    Ok(StreamEntry { data: stream, source: String::from_str(source), nals })
}

/// The error for a file that is neither MP4 nor Annex B.
pub open spec fn unknown_format_error() -> Seq<char> {
    "无法识别的文件格式：既不是 MP4 容器，也不含 H.264 AnnexB 起始码"@
}

/// The entry of a file's bytes: the H.264 samples of an MP4 file as an
/// Annex B stream, or an Annex B stream as it is.
pub fn load_entry(raw: Vec<u8>) -> (r: Result<StreamEntry, String>)
    ensures
        raw@.len() >= 12 && mp4_head(raw@) ==> exists|boxes: Seq<Mp4BoxNode>|
            #![trigger extract_from(raw@, boxes)]
            nodes_are(boxes, raw@, 0, raw@.len() as int, 0) && match extract_from(raw@, boxes) {
                Ok((o, _k)) => r is Ok && entry_is(r->Ok_0, o, "mp4"@),
                Err(e) => r is Err && r->Err_0@ == e,
            },
        !(raw@.len() >= 12 && mp4_head(raw@)) && next_start_code(raw@, 0) is Some ==> r is Ok
            && entry_is(r->Ok_0, raw@, "annexb"@),
        !(raw@.len() >= 12 && mp4_head(raw@)) && next_start_code(raw@, 0) is None ==> r is Err
            && r->Err_0@ == unknown_format_error(),
{
    if is_mp4(raw.as_slice()) {
        let (stream, _) = extract_annexb_bytes(raw.as_slice())?;
        build_entry(stream, "mp4")
    } else if is_annexb(raw.as_slice()) {
        build_entry(raw, "annexb")
    } else {
        Err(String::from_str("无法识别的文件格式：既不是 MP4 容器，也不含 H.264 AnnexB 起始码"))
    }
}

/// The largest file that is opened: 2 GiB.
pub const MAX_FILE_SIZE: u64 = 2147483648;

/// Refuses a file of `size` bytes above the limit, giving its size in whole
/// MiB.
pub fn check_file_size(size: u64) -> (r: Result<(), String>)
    ensures
        r is Ok <==> size <= MAX_FILE_SIZE,
        r matches Err(e) ==> e@ == num_seq("文件过大（"@, (size / 1048576) as nat, " MB），上限 2048 MB"@),
{
    if size > MAX_FILE_SIZE {
        return Err(num_text("文件过大（", size / 1048576, " MB），上限 2048 MB"));
    }
    Ok(())
}

/// The cache key of a file: its path, modification time (seconds since
/// the epoch) and size, joined by '|', so that a file saved again is read
/// again.
pub fn cache_key_text(path: &str, mtime: u64, len: u64) -> (r: String)
    ensures
        r@ == path@ + "|"@ + dec_chars(mtime as nat) + "|"@ + dec_chars(len as nat),
{
    let mut s = String::from_str(path);
    s.append("|");
    push_dec(&mut s, mtime);
    s.append("|");
    push_dec(&mut s, len);
    s
}

/// The largest window of raw bytes handed out at once.
pub const MAX_HEX_WINDOW: usize = 65536;

/// `h` is the window of at most `len` (and at most 64 KiB) bytes of `d`
/// from `offset`, both clamped to the end of `d`.
pub open spec fn window_is(h: HexData, d: Seq<u8>, offset: nat, len: nat) -> bool {
    let n = if len < MAX_HEX_WINDOW {
        len
    } else {
        MAX_HEX_WINDOW as nat
    };
    let start = if offset < d.len() {
        offset
    } else {
        d.len()
    };
    let end: int = if start + n < d.len() {
        (start + n) as int
    } else {
        d.len() as int
    };
    &&& h.offset == start
    &&& h.bytes@ == d.subrange(start as int, end)
    &&& h.file_size == d.len()
}

/// A window of the raw bytes of a stream.
pub fn hex_window(data: &[u8], offset: usize, len: usize) -> (r: HexData)
    ensures
        window_is(r, data@, offset as nat, len as nat),
{
    let n = if len < MAX_HEX_WINDOW {
        len
    } else {
        MAX_HEX_WINDOW
    };
    let start = if offset < data.len() {
        offset
    } else {
        data.len()
    };
    let end = if n < data.len() - start {
        start + n
    } else {
        data.len()
    };
    HexData {
        offset: start,
        bytes: vstd::slice::slice_to_vec(&data[start..end]),
        file_size: data.len(),
    }
}

} // verus!
