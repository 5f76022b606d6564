//! NAL unit layer: start-code scan of an Annex B stream, NAL unit header,
//! and removal of emulation-prevention bytes (EBSP to RBSP).

use vstd::prelude::*;

verus! {

/// Where a NAL unit stands in the stream.
#[derive(Debug, Clone)]
pub struct RawNal {
    /// Offset of the start code.
    pub start_offset: usize,
    /// Length of the start code (3 or 4 bytes).
    pub start_code_len: usize,
    /// Offset of the NAL unit data (after the start code, header included).
    pub data_offset: usize,
    /// Length of the NAL unit data, header included, trailing 0x00 bytes removed.
    pub data_len: usize,
    pub nal_type: u8,
    pub ref_idc: u8,
}

/// The name of a `nal_unit_type`.
pub open spec fn nal_type_label(t: u8) -> Seq<char> {
    if t == 1 {
        "非IDR切片 (P/B)"@
    } else if t == 2 {
        "切片分区A"@
    } else if t == 3 {
        "切片分区B"@
    } else if t == 4 {
        "切片分区C"@
    } else if t == 5 {
        "IDR切片"@
    } else if t == 6 {
        "SEI"@
    } else if t == 7 {
        "SPS"@
    } else if t == 8 {
        "PPS"@
    } else if t == 9 {
        "AUD 分界符"@
    } else if t == 10 {
        "序列结束"@
    } else if t == 11 {
        "码流结束"@
    } else if t == 12 {
        "填充数据"@
    } else if t == 14 {
        "前缀NALU (MVC/SVC)"@
    } else if t == 15 {
        "子集SPS (MVC/SVC)"@
    } else if t == 19 {
        "切片扩展 (MVC)"@
    } else if t == 20 {
        "切片扩展 (MVC/SVC)"@
    } else if t == 13 || (16 <= t <= 18) || (21 <= t <= 23) {
        "保留"@
    } else if 24 <= t <= 31 {
        "保留(RTP聚合等)"@
    } else {
        "非法"@
    }
}

pub fn nal_type_name(t: u8) -> (r: String)
    ensures
        r@ == nal_type_label(t),
{
    let name = match t {
        1 => "非IDR切片 (P/B)",
        2 => "切片分区A",
        3 => "切片分区B",
        4 => "切片分区C",
        5 => "IDR切片",
        6 => "SEI",
        7 => "SPS",
        8 => "PPS",
        9 => "AUD 分界符",
        10 => "序列结束",
        11 => "码流结束",
        12 => "填充数据",
        14 => "前缀NALU (MVC/SVC)",
        15 => "子集SPS (MVC/SVC)",
        19 => "切片扩展 (MVC)",
        20 => "切片扩展 (MVC/SVC)",
        13 | 16..=18 | 21..=23 => "保留",
        24..=31 => "保留(RTP聚合等)",
        _ => "非法",
    };
    String::from_str(name)
}

/// A three-byte start code `00 00 01` stands at `i`.
pub open spec fn sc3_at(d: Seq<u8>, i: int) -> bool {
    0 <= i && i + 2 < d.len() && d[i] == 0 && d[i + 1] == 0 && d[i + 2] == 1
}

/// The first `i >= from` at which `00 00 01` stands.
pub open spec fn first_sc3(d: Seq<u8>, from: int) -> Option<int>
    decreases d.len() - from,
{
    if from < 0 || from + 2 >= d.len() {
        None
    } else if sc3_at(d, from) {
        Some(from)
    } else {
        first_sc3(d, from + 1)
    }
}

/// The next start code from `from`: its offset and length. A zero byte
/// before `00 00 01` (and at or after `from`) makes it the four-byte code
/// `00 00 00 01`.
pub open spec fn next_start_code(d: Seq<u8>, from: int) -> Option<(int, int)> {
    match first_sc3(d, from) {
        Some(i) => if i > from && d[i - 1] == 0 {
            Some((i - 1, 4))
        } else {
            Some((i, 3))
        },
        None => None,
    }
}

pub proof fn lemma_first_sc3(d: Seq<u8>, from: int)
    ensures
        first_sc3(d, from) matches Some(i) ==> from <= i && sc3_at(d, i) && forall|j: int|
            from <= j < i ==> !sc3_at(d, j),
        first_sc3(d, from) is None && from >= 0 ==> forall|j: int| from <= j ==> !sc3_at(d, j),
    decreases d.len() - from,
{
    if from < 0 || from + 2 >= d.len() {
    } else if !sc3_at(d, from) {
        lemma_first_sc3(d, from + 1);
    }
}

/// Finds the next start code in `data[from..]`: its offset and length.
pub fn find_start_code(data: &[u8], from: usize) -> (r: Option<(usize, usize)>)
    ensures
        match next_start_code(data@, from as int) {
            Some((o, l)) => r == Some((o as usize, l as usize)),
            None => r is None,
        },
{
    let mut i = from;
    while i < data.len() && data.len() - i > 2
        invariant
            from <= i,
            first_sc3(data@, from as int) == first_sc3(data@, i as int),
        decreases data.len() - i,
    {
        if data[i] == 0 && data[i + 1] == 0 && data[i + 2] == 1 {
            if i > from && data[i - 1] == 0 {
                return Some((i - 1, 4));
            }
            return Some((i, 3));
        }
        i += 1;
    }
    None
}

/// The greatest number of NAL units that a scan lists.
pub const MAX_NALUS: usize = 200000;

/// The end of the data from `off` to `end` with its trailing zero bytes removed.
pub open spec fn trim_zeros(d: Seq<u8>, off: int, end: int) -> int
    decreases end - off,
{
    if end > off && d[end - 1] == 0 {
        trim_zeros(d, off, end - 1)
    } else {
        end
    }
}

/// The NAL unit record for a start code at `sc_off` of length `sc_len`
/// whose data ends at `end`.
pub open spec fn raw_nal_of(d: Seq<u8>, sc_off: int, sc_len: int, end: int) -> RawNal {
    RawNal {
        start_offset: sc_off as usize,
        start_code_len: sc_len as usize,
        data_offset: (sc_off + sc_len) as usize,
        data_len: (end - (sc_off + sc_len)) as usize,
        nal_type: d[sc_off + sc_len] & 0x1Fu8,
        ref_idc: (d[sc_off + sc_len] >> 5u8) & 0x3u8,
    }
}

/// The end of a NAL unit's data that starts at `off`: the next start code,
/// or the end of the stream, with trailing zero bytes removed.
pub open spec fn nal_data_end(d: Seq<u8>, off: int) -> int {
    trim_zeros(
        d,
        off,
        match next_start_code(d, off) {
            Some((o, _)) => o,
            None => d.len() as int,
        },
    )
}

/// All NAL units of the stream from `cursor`, without the limit: each start
/// code begins a unit that runs to the next start code; units left empty by
/// the removal of trailing zeros are not listed.
pub open spec fn scan_nals(d: Seq<u8>, cursor: int) -> Seq<RawNal>
    decreases d.len() - cursor,
{
    match next_start_code(d, cursor) {
        Some((o, l)) => {
            proof {
                lemma_first_sc3(d, cursor);
            }
            let off = o + l;
            let e = nal_data_end(d, off);
            if e > off {
                seq![raw_nal_of(d, o, l, e)] + scan_nals(d, off)
            } else {
                scan_nals(d, off)
            }
        },
        None => seq![],
    }
}

/// A NAL unit record fits `d`: its start code precedes its data, and its
/// data (at least the header byte) lies within `d`.
pub open spec fn nal_fits(d: Seq<u8>, n: RawNal) -> bool {
    &&& n.start_code_len == 3 || n.start_code_len == 4
    &&& n.data_offset == n.start_offset + n.start_code_len
    &&& n.data_len >= 1
    &&& n.data_offset + n.data_len <= d.len()
    &&& n.nal_type == d[n.data_offset as int] & 0x1Fu8
    &&& n.ref_idc == (d[n.data_offset as int] >> 5u8) & 0x3u8
}

pub proof fn lemma_trim_zeros(d: Seq<u8>, off: int, end: int)
    requires
        off <= end,
    ensures
        off <= trim_zeros(d, off, end) <= end,
    decreases end - off,
{
    if end > off && d[end - 1] == 0 {
        lemma_trim_zeros(d, off, end - 1);
    }
}

/// Every listed NAL unit fits the stream.
pub proof fn lemma_scan_fits(d: Seq<u8>, cursor: int)
    requires
        d.len() <= usize::MAX,
    ensures
        forall|i: int| 0 <= i < scan_nals(d, cursor).len() ==> nal_fits(d, #[trigger] scan_nals(d, cursor)[i]),
    decreases d.len() - cursor,
{
    lemma_first_sc3(d, cursor);
    match next_start_code(d, cursor) {
        Some((o, l)) => {
            let off = o + l;
            lemma_first_sc3(d, off);
            let end = match next_start_code(d, off) {
                Some((o2, _)) => o2,
                None => d.len() as int,
            };
            assert(off <= end <= d.len());
            lemma_trim_zeros(d, off, end);
            lemma_scan_fits(d, off);
            let e = nal_data_end(d, off);
            let rest = scan_nals(d, off);
            if e > off {
                let n = raw_nal_of(d, o, l, e);
                assert(nal_fits(d, n));
                assert(scan_nals(d, cursor) == seq![n] + rest);
                assert forall|i: int| 0 <= i < scan_nals(d, cursor).len() implies nal_fits(
                    d,
                    #[trigger] scan_nals(d, cursor)[i],
                ) by {
                    if i > 0 {
                        assert(scan_nals(d, cursor)[i] == rest[i - 1]);
                    }
                }
            } else {
                assert(scan_nals(d, cursor) == rest);
            }
        },
        None => {},
    }
}

/// Lists the NAL units of an Annex B stream, at most `MAX_NALUS` of them.
/// Zero bytes that end a unit before the next start code (trailing zeros,
/// the leading zero of a four-byte start code) are not counted in it.
pub fn scan_annexb(data: &[u8]) -> (r: Vec<RawNal>)
    ensures
        r@ == if scan_nals(data@, 0).len() <= MAX_NALUS {
            scan_nals(data@, 0)
        } else {
            scan_nals(data@, 0).take(MAX_NALUS as int)
        },
        forall|i: int| 0 <= i < r@.len() ==> nal_fits(data@, #[trigger] r@[i]),
{
    let ghost d = data@;
    assert(d.len() == data.len());
    let mut out: Vec<RawNal> = Vec::new();
    let mut cursor: usize = 0;
    proof {
        lemma_scan_fits(d, 0);
    }
    loop
        invariant_except_break
            d == data@,
            d.len() <= usize::MAX,
            out@.len() <= MAX_NALUS,
            out@ + scan_nals(d, cursor as int) == scan_nals(d, 0),
            cursor <= d.len(),
        ensures
            out@.len() <= MAX_NALUS,
            out@ == if scan_nals(d, 0).len() <= MAX_NALUS {
                scan_nals(d, 0)
            } else {
                scan_nals(d, 0).take(MAX_NALUS as int)
            },
        decreases d.len() - cursor,
    {
        let found = find_start_code(data, cursor);
        let (sc_off, sc_len) = match found {
            Some(x) => x,
            None => {
                assert(scan_nals(d, cursor as int) =~= Seq::<RawNal>::empty());
                assert(out@ =~= scan_nals(d, 0));
                break;
            },
        };
        proof {
            lemma_first_sc3(d, cursor as int);
        }
        if out.len() >= MAX_NALUS {
            assert(out@ =~= scan_nals(d, 0).take(MAX_NALUS as int));
            break;
        }
        let data_offset = sc_off + sc_len;
        let end = match find_start_code(data, data_offset) {
            Some((next_sc, _)) => next_sc,
            None => data.len(),
        };
        proof {
            lemma_first_sc3(d, data_offset as int);
        }
        let mut data_end = end;
        while data_end > data_offset && data[data_end - 1] == 0
            invariant
                data_offset <= data_end <= end <= d.len(),
                d == data@,
                trim_zeros(d, data_offset as int, end as int) == trim_zeros(
                    d,
                    data_offset as int,
                    data_end as int,
                ),
            decreases data_end,
        {
            data_end -= 1;
        }
        let ghost rest = scan_nals(d, data_offset as int);
        if data_end > data_offset {
            let header = data[data_offset];
            let n = RawNal {
                start_offset: sc_off,
                start_code_len: sc_len,
                data_offset,
                data_len: data_end - data_offset,
                nal_type: header & 0x1F,
                ref_idc: (header >> 5) & 0x3,
            };
            assert(n == raw_nal_of(d, sc_off as int, sc_len as int, data_end as int));
            assert(scan_nals(d, cursor as int) == seq![n] + rest);
            let ghost old_out = out@;
            out.push(n);
            assert(out@ + rest =~= old_out + (seq![n] + rest));
        } else {
            assert(scan_nals(d, cursor as int) == rest);
        }
        cursor = data_offset;
    }
    proof {
        lemma_scan_fits(d, 0);
        assert forall|i: int| 0 <= i < out@.len() implies nal_fits(d, #[trigger] out@[i]) by {
            assert(out@[i] == scan_nals(d, 0)[i]);
        }
    }
    out
}

/// The RBSP of `e` from index `i`, when `zr` zero bytes directly precede it:
/// a byte 0x03 after two zero bytes and before a byte at most 0x03 is an
/// emulation-prevention byte and is dropped (and the zero count restarts).
pub open spec fn unescape_from(e: Seq<u8>, i: int, zr: nat) -> Seq<u8>
    decreases e.len() - i,
{
    if i < 0 || i >= e.len() {
        seq![]
    } else if zr >= 2 && e[i] == 3 && i + 1 < e.len() && e[i + 1] <= 3 {
        unescape_from(e, i + 1, 0)
    } else {
        seq![e[i]] + unescape_from(e, i + 1, if e[i] == 0 {
            zr + 1
        } else {
            0
        })
    }
}

/// The RBSP of an EBSP: the bytes with the emulation-prevention bytes removed.
pub open spec fn unescape(e: Seq<u8>) -> Seq<u8> {
    unescape_from(e, 0, 0)
}

/// EBSP to RBSP: removes each emulation-prevention byte 0x03 that follows
/// `00 00` and precedes a byte of at most 0x03.
pub fn unescape_rbsp(ebsp: &[u8]) -> (r: Vec<u8>)
    ensures
        r@ == unescape(ebsp@),
{
    let ghost e = ebsp@;
    let mut out: Vec<u8> = Vec::new();
    let mut zero_run: usize = 0;
    let mut i: usize = 0;
    while i < ebsp.len()
        invariant
            e == ebsp@,
            i <= e.len(),
            zero_run <= i,
            out@ + unescape_from(e, i as int, zero_run as nat) == unescape(e),
        decreases e.len() - i,
    {
        let b = ebsp[i];
        if zero_run >= 2 && b == 0x03 && i + 1 < ebsp.len() && ebsp[i + 1] <= 0x03 {
            zero_run = 0;
            i += 1;
            continue;
        }
        let ghost zr0 = zero_run as nat;
        if b == 0 {
            zero_run += 1;
        } else {
            zero_run = 0;
        }
        let ghost old_out = out@;
        out.push(b);
        assert(unescape_from(e, i as int, zr0) == seq![b] + unescape_from(
            e,
            i + 1,
            zero_run as nat,
        ));
        assert(out@ + unescape_from(e, i + 1, zero_run as nat) =~= old_out + unescape_from(
            e,
            i as int,
            zr0,
        ));
        i += 1;
    }
    assert(unescape_from(e, i as int, zero_run as nat) =~= Seq::<u8>::empty());
    assert(out@ =~= unescape(e));
    out
}

/// An emulation-prevention byte stands at `i`: 0x03 after `00 00` and
/// before a byte of at most 0x03.
pub open spec fn emulation_at(e: Seq<u8>, i: int) -> bool {
    2 <= i && i + 1 < e.len() && e[i - 2] == 0 && e[i - 1] == 0 && e[i] == 3 && e[i + 1] <= 3
}

/// The number of zero bytes directly before index `i`.
pub open spec fn zeros_before(e: Seq<u8>, i: int) -> nat
    decreases i,
{
    if i <= 0 || e[i - 1] != 0 {
        0
    } else {
        zeros_before(e, i - 1) + 1
    }
}

proof fn lemma_unescape_plain_from(e: Seq<u8>, i: int)
    requires
        0 <= i <= e.len(),
        forall|j: int| 0 <= j < e.len() ==> !emulation_at(e, j),
    ensures
        unescape_from(e, i, zeros_before(e, i)) == e.subrange(i, e.len() as int),
    decreases e.len() - i,
{
    if i < e.len() {
        let zr = zeros_before(e, i);
        if zr >= 2 {
            assert(e[i - 1] == 0 && zeros_before(e, i - 1) >= 1);
            assert(e[i - 2] == 0);
            assert(!emulation_at(e, i));
        }
        lemma_unescape_plain_from(e, i + 1);
        assert(zeros_before(e, i + 1) == if e[i] == 0 {
            zr + 1
        } else {
            0
        });
        assert(seq![e[i]] + e.subrange(i + 1, e.len() as int) =~= e.subrange(i, e.len() as int));
    } else {
        assert(e.subrange(i, e.len() as int) =~= Seq::<u8>::empty());
    }
}

/// Data in which no emulation-prevention byte stands is its own RBSP.
pub proof fn lemma_unescape_plain(e: Seq<u8>)
    requires
        forall|j: int| 0 <= j < e.len() ==> !emulation_at(e, j),
    ensures
        unescape(e) == e,
{
    lemma_unescape_plain_from(e, 0);
    assert(e.subrange(0, e.len() as int) =~= e);
}

proof fn lemma_unescape_len_from(e: Seq<u8>, i: int, zr: nat)
    requires
        0 <= i,
    ensures
        unescape_from(e, i, zr).len() <= if i <= e.len() {
            e.len() - i
        } else {
            0
        },
    decreases e.len() - i,
{
    if i < e.len() {
        lemma_unescape_len_from(e, i + 1, 0);
        lemma_unescape_len_from(e, i + 1, zr + 1);
    }
}

/// Removing emulation-prevention bytes never lengthens the data.
pub proof fn lemma_unescape_len(e: Seq<u8>)
    ensures
        unescape(e).len() <= e.len(),
{
    lemma_unescape_len_from(e, 0, 0);
}

/// The stream holds a start code.
pub fn is_annexb(data: &[u8]) -> (r: bool)
    ensures
        r == (next_start_code(data@, 0) is Some),
{
    find_start_code(data, 0).is_some()
}

/// The box type at bytes 4..8 is one that an MP4 file begins with.
pub open spec fn mp4_head(d: Seq<u8>) -> bool {
    let t = d.subrange(4, 8);
    ||| t == seq![0x66u8, 0x74u8, 0x79u8, 0x70u8]
    ||| t == seq![0x6Du8, 0x6Fu8, 0x6Fu8, 0x76u8]
    ||| t == seq![0x6Du8, 0x64u8, 0x61u8, 0x74u8]
    ||| t == seq![0x66u8, 0x72u8, 0x65u8, 0x65u8]
    ||| t == seq![0x73u8, 0x6Bu8, 0x69u8, 0x70u8]
    ||| t == seq![0x77u8, 0x69u8, 0x64u8, 0x65u8]
}

/// At least 12 bytes whose box type at bytes 4..8 is `ftyp`, `moov`,
/// `mdat`, `free`, `skip` or `wide`.
pub fn is_mp4(data: &[u8]) -> (r: bool)
    ensures
        r == (data@.len() >= 12 && mp4_head(data@)),
{
    if data.len() < 12 {
        return false;
    }
    let a = data[4];
    let b = data[5];
    let c = data[6];
    let e = data[7];
    let r = (a == 0x66 && b == 0x74 && c == 0x79 && e == 0x70) || (a == 0x6D && b == 0x6F && c
        == 0x6F && e == 0x76) || (a == 0x6D && b == 0x64 && c == 0x61 && e == 0x74) || (a == 0x66
        && b == 0x72 && c == 0x65 && e == 0x65) || (a == 0x73 && b == 0x6B && c == 0x69 && e
        == 0x70) || (a == 0x77 && b == 0x69 && c == 0x64 && e == 0x65);
    let ghost t = data@.subrange(4, 8);
    assert(t =~= seq![a, b, c, e]);
    r
}

} // verus!
