//! MP4 / ISO-BMFF containers: the box tree, track summaries, the parameter
//! sets of the avcC record, and conversion of H.264 samples to Annex B.

use vstd::prelude::*;
use crate::text::{dec_chars, hex2, num_seq, num_text, push_char, push_dec, push_hex2, str_eq};

verus! {

/// One box of the tree.
#[derive(Debug)]
pub struct Mp4BoxNode {
    pub btype: String,
    pub offset: u64,
    pub size: u64,
    pub info: Vec<String>,
    pub children: Vec<Mp4BoxNode>,
}

/// The big-endian 16-bit number at `off`.
pub open spec fn be16_at(d: Seq<u8>, off: int) -> nat {
    (d[off] * 256 + d[off + 1]) as nat
}

/// The big-endian 32-bit number at `off`.
pub open spec fn be32_at(d: Seq<u8>, off: int) -> nat {
    (d[off] * 16777216 + d[off + 1] * 65536 + d[off + 2] * 256 + d[off + 3]) as nat
}

/// The big-endian 64-bit number at `off`.
pub open spec fn be64_at(d: Seq<u8>, off: int) -> nat {
    be32_at(d, off) * 4294967296 + be32_at(d, off + 4)
}

fn be16(d: &[u8], off: usize) -> (r: u16)
    requires
        off + 2 <= d@.len(),
    ensures
        r == be16_at(d@, off as int),
{
    (d[off] as u16) * 256 + (d[off + 1] as u16)
}

fn be32(d: &[u8], off: usize) -> (r: u32)
    requires
        off + 4 <= d@.len(),
    ensures
        r == be32_at(d@, off as int),
{
    (d[off] as u32) * 16777216 + (d[off + 1] as u32) * 65536 + (d[off + 2] as u32) * 256 + (d[off
        + 3] as u32)
}

fn be64(d: &[u8], off: usize) -> (r: u64)
    requires
        off + 8 <= d@.len(),
    ensures
        r == be64_at(d@, off as int),
{
    let len = d.len();
    (be32(d, off) as u64) * 4294967296 + (be32(d, off + 4) as u64)
}

/// A byte of a four-character code as shown: itself when printable ASCII,
/// else a middle dot.
pub open spec fn fourcc_char(b: u8) -> char {
    if 0x20 <= b <= 0x7E {
        b as char
    } else {
        '·'
    }
}

/// The four-character code at `off`.
pub open spec fn fourcc(d: Seq<u8>, off: int) -> Seq<char> {
    seq![fourcc_char(d[off]), fourcc_char(d[off + 1]), fourcc_char(d[off + 2]), fourcc_char(d[off + 3])]
}

fn fourcc_at(d: &[u8], off: usize) -> (r: String)
    requires
        off + 4 <= d@.len(),
    ensures
        r@ == fourcc(d@, off as int),
{
    let mut s = String::new();
    let mut i: usize = 0;
    let len = d.len();
    while i < 4
        invariant
            i <= 4,
            off + 4 <= d@.len(),
            d@.len() == len,
            s@ == fourcc(d@, off as int).take(i as int),
        decreases 4 - i,
    {
        let b = d[off + i];
        let c = if 0x20 <= b && b <= 0x7E {
            b as char
        } else {
            '·'
        };
        push_char(&mut s, c);
        assert(fourcc(d@, off as int).take(i + 1) =~= fourcc(d@, off as int).take(i as int).push(c));
        i += 1;
    }
    assert(fourcc(d@, off as int).take(4) =~= fourcc(d@, off as int));
    s
}

/// The content range of a box (its header removed), when it lies in `d`.
pub open spec fn box_range(d: Seq<u8>, node: Mp4BoxNode) -> Option<(int, int)> {
    let off = node.offset as int;
    let header = if be32_at(d, off) == 1 {
        16int
    } else {
        8int
    };
    if off + header <= off + node.size && off + node.size <= d.len() {
        Some((off + header, off + node.size))
    } else {
        None
    }
}

/// The content of a box (its header removed).
pub fn box_content<'a>(d: &'a [u8], node: &Mp4BoxNode) -> (r: Option<&'a [u8]>)
    requires
        node.offset + 4 <= d@.len(),
    ensures
        match box_range(d@, *node) {
            Some((a, b)) => r is Some && r->0@ == d@.subrange(a, b),
            None => r is None,
        },
{
    let len = d.len();
    let off = node.offset as usize;
    let header: usize = if be32(d, off) == 1 {
        16
    } else {
        8
    };
    if off > usize::MAX - header {
        return None;
    }
    let start = off + header;
    if node.size > (usize::MAX - off) as u64 {
        return None;
    }
    let end = off + node.size as usize;
    if start <= end && end <= d.len() {
        Some(&d[start..end])
    } else {
        None
    }
}

/// Bytes of fixed fields in a box before its child boxes: a sample
/// description's entry count, and a visual or audio sample entry's fields.
pub open spec fn entry_skip(t: Seq<char>) -> nat {
    if t == "stsd"@ {
        8
    } else if t == "avc1"@ || t == "avc2"@ || t == "avc3"@ || t == "avc4"@ || t == "encv"@ || t
        == "hvc1"@ || t == "hev1"@ || t == "s263"@ || t == "jpeg"@ {
        78
    } else if t == "mp4a"@ || t == "enca"@ || t == "ac-3"@ {
        28
    } else {
        0
    }
}

fn sample_entry_skip(btype: &str) -> (r: usize)
    ensures
        r == entry_skip(btype@),
{
    if str_eq(btype, "stsd") {
        8
    } else if str_eq(btype, "avc1") || str_eq(btype, "avc2") || str_eq(btype, "avc3") || str_eq(
        btype,
        "avc4",
    ) || str_eq(btype, "encv") || str_eq(btype, "hvc1") || str_eq(btype, "hev1") || str_eq(
        btype,
        "s263",
    ) || str_eq(btype, "jpeg") {
        78
    } else if str_eq(btype, "mp4a") || str_eq(btype, "enca") || str_eq(btype, "ac-3") {
        28
    } else {
        0
    }
}

/// Boxes whose content is a list of child boxes.
pub open spec fn container(t: Seq<char>) -> bool {
    ||| t == "moov"@
    ||| t == "trak"@
    ||| t == "mdia"@
    ||| t == "minf"@
    ||| t == "stbl"@
    ||| t == "edts"@
    ||| t == "dinf"@
    ||| t == "udta"@
    ||| t == "mvex"@
    ||| t == "moof"@
    ||| t == "traf"@
    ||| t == "sinf"@
    ||| t == "schi"@
    ||| t == "meta"@
    ||| t == "avc1"@
    ||| t == "avc2"@
    ||| t == "avc3"@
    ||| t == "avc4"@
    ||| t == "encv"@
    ||| t == "hvc1"@
    ||| t == "hev1"@
    ||| t == "mp4a"@
    ||| t == "smp4"@
    ||| entry_skip(t) > 0
}

fn is_container(btype: &str) -> (r: bool)
    ensures
        r == container(btype@),
{
    let names = [
        "moov",
        "trak",
        "mdia",
        "minf",
        "stbl",
        "edts",
        "dinf",
        "udta",
        "mvex",
        "moof",
        "traf",
        "sinf",
        "schi",
        "meta",
        "avc1",
        "avc2",
        "avc3",
        "avc4",
        "encv",
        "hvc1",
        "hev1",
        "mp4a",
        "smp4",
    ];
    let mut i: usize = 0;
    while i < names.len()
        invariant
            i <= names@.len(),
            names@ == seq![
                "moov",
                "trak",
                "mdia",
                "minf",
                "stbl",
                "edts",
                "dinf",
                "udta",
                "mvex",
                "moof",
                "traf",
                "sinf",
                "schi",
                "meta",
                "avc1",
                "avc2",
                "avc3",
                "avc4",
                "encv",
                "hvc1",
                "hev1",
                "mp4a",
                "smp4",
            ],
            forall|j: int| 0 <= j < i ==> btype@ != (#[trigger] names@[j])@,
        decreases names@.len() - i,
    {
        if str_eq(btype, names[i]) {
            return true;
        }
        i += 1;
    }
    sample_entry_skip(btype) > 0
}

/// Skips `k` entries, each a 16-bit length and that many bytes, from `p`:
/// the position after them, or none when a length does not fit before `e`.
pub open spec fn avcc_skip(d: Seq<u8>, p: int, e: int, k: nat) -> Option<int>
    decreases k,
{
    if k == 0 {
        Some(p)
    } else if p + 2 > e {
        None
    } else {
        avcc_skip(d, p + 2 + be16_at(d, p), e, (k - 1) as nat)
    }
}

proof fn lemma_skip_past(d: Seq<u8>, p: int, e: int, k: nat)
    requires
        p > e,
    ensures
        avcc_skip(d, p, e, k) matches Some(q) ==> q > e,
{
}

/// The summary of an avcC record from `s` to `e`: profile, compatibility,
/// level, NAL unit length size, and the numbers of SPS and PPS.
pub open spec fn avcc_header(d: Seq<u8>, s: int, e: int) -> (u8, u8, u8, nat, nat, nat) {
    if e - s < 6 {
        (0, 0, 0, 0, 0, 0)
    } else {
        let ns = (d[s + 5] % 32) as nat;
        let np: nat = match avcc_skip(d, s + 6, e, ns) {
            None => 0,
            Some(p) => if p < e {
                d[p] as nat
            } else {
                0
            },
        };
        (d[s + 1], d[s + 2], d[s + 3], (d[s + 4] % 4 + 1) as nat, ns, np)
    }
}

fn avcc_header_info(d: &[u8], s: usize, e: usize) -> (r: (u8, u8, u8, u32, u32, u32))
    requires
        s <= e <= d@.len(),
    ensures
        (r.0, r.1, r.2, r.3 as nat, r.4 as nat, r.5 as nat) == avcc_header(d@, s as int, e as int),
{
    if e - s < 6 {
        return (0, 0, 0, 0, 0, 0);
    }
    let profile = d[s + 1];
    let compat = d[s + 2];
    let level = d[s + 3];
    let length_size = (d[s + 4] % 4) as u32 + 1;
    let num_sps = (d[s + 5] % 32) as u32;
    let mut p = s + 6;
    let mut k: u32 = 0;
    while k < num_sps
        invariant
            s + 6 <= e <= d@.len(),
            k <= num_sps,
            num_sps == d@[s + 5] % 32,
            profile == d@[s + 1],
            compat == d@[s + 2],
            level == d@[s + 3],
            length_size == d@[s + 4] % 4 + 1,
            p <= e,
            avcc_skip(d@, s + 6, e as int, num_sps as nat) == avcc_skip(
                d@,
                p as int,
                e as int,
                (num_sps - k) as nat,
            ),
        decreases num_sps - k,
    {
        if e - p < 2 {
            return (profile, compat, level, length_size, num_sps, 0);
        }
        let n = be16(d, p) as usize;
        if n > e - (p + 2) {
            proof {
                lemma_skip_past(d@, p + 2 + n, e as int, (num_sps - k - 1) as nat);
            }
            return (profile, compat, level, length_size, num_sps, 0);
        }
        p = p + 2 + n;
        k += 1;
    }
    let num_pps = if p < e {
        d[p] as u32
    } else {
        0
    };
    (profile, compat, level, length_size, num_sps, num_pps)
}

/// The round-half-to-even integer of a 16.16 fixed-point number, as the
/// display of its value with no decimals.
pub open spec fn round_fixed(v: nat) -> nat {
    let q = v / 65536;
    let r = v % 65536;
    if r > 32768 || (r == 32768 && q % 2 == 1) {
        q + 1
    } else {
        q
    }
}

fn round_fixed_exec(v: u32) -> (r: u32)
    ensures
        r == round_fixed(v as nat),
{
    let q = v / 65536;
    let r = v % 65536;
    if r > 32768 || (r == 32768 && q % 2 == 1) {
        q + 1
    } else {
        q
    }
}

/// The summary lines of a box of type `t` with content from `s` to `e`.
pub open spec fn box_info(d: Seq<u8>, s: int, e: int, t: Seq<char>) -> Seq<Seq<char>> {
    let len = e - s;
    if t == "ftyp"@ && len >= 4 {
        seq!["品牌 "@ + fourcc(d, s)] + (if len >= 8 {
            seq![num_seq("版本 "@, be32_at(d, s + 4), ""@)]
        } else {
            seq![]
        }) + seq![num_seq("兼容品牌 "@, ((len - 4) / 4) as nat, " 项"@)]
    } else if t == "mvhd"@ && len >= 20 {
        if d[s] == 1 && len >= 32 {
            seq![
                num_seq("timescale "@, be32_at(d, s + 20), ""@),
                num_seq("duration "@, be64_at(d, s + 24), ""@),
            ]
        } else {
            seq![
                num_seq("timescale "@, be32_at(d, s + 12), ""@),
                num_seq("duration "@, be32_at(d, s + 16), ""@),
            ]
        }
    } else if t == "tkhd"@ && len >= 84 {
        let tid = if d[s] == 1 {
            be32_at(d, s + 20)
        } else {
            be32_at(d, s + 12)
        };
        let w = be32_at(d, s + len - 8);
        let h = be32_at(d, s + len - 4);
        seq![num_seq("track_id "@, tid, ""@)] + if w > 0 {
            seq![num_seq("显示尺寸 "@, round_fixed(w), "x"@) + dec_chars(round_fixed(h))]
        } else {
            seq![]
        }
    } else if t == "mdhd"@ && len >= 20 {
        seq![
            num_seq(
                "timescale "@,
                if d[s] == 1 && len >= 32 {
                    be32_at(d, s + 20)
                } else {
                    be32_at(d, s + 12)
                },
                ""@,
            ),
        ]
    } else if t == "hdlr"@ && len >= 12 {
        seq!["处理器 "@ + fourcc(d, s + 8)]
    } else if t == "stsd"@ && len >= 16 {
        seq![
            num_seq("样本描述 "@, min_nat(be32_at(d, s + 4), 9999), " 项"@),
            "首项格式 "@ + fourcc(d, s + 12),
        ]
    } else if t == "stsz"@ && len >= 12 {
        let ss = be32_at(d, s + 4);
        let cnt = min_nat(be32_at(d, s + 8), 9999999);
        if ss == 0 {
            seq![num_seq("变长样本 "@, cnt, " 个"@)]
        } else {
            seq![num_seq("定长样本 "@, ss, " 字节 × "@) + dec_chars(cnt)]
        }
    } else if (t == "stco"@ || t == "co64"@) && len >= 8 {
        seq![num_seq("chunk "@, min_nat(be32_at(d, s + 4), 9999999), " 个"@)]
    } else if t == "stts"@ && len >= 8 {
        seq![num_seq("时间-样本映射 "@, min_nat(be32_at(d, s + 4), 9999999), " 项"@)]
    } else if t == "avcC"@ && len >= 8 {
        let (p, c, l, ls, ns, np) = avcc_header(d, s, e);
        seq![
            num_seq("Profile "@, p as nat, " / Compat 0x"@) + hex2(c) + num_seq(" / Level "@, l as nat, ""@),
            num_seq("NALU 长度前缀 "@, ls, " 字节"@),
            num_seq("SPS "@, ns, " 个 / PPS "@) + num_seq(""@, np, " 个"@),
        ]
    } else if t == "hvcC"@ {
        seq!["HEVC 配置（v1 暂不解析）"@]
    } else if t == "mdat"@ {
        seq![num_seq("媒体数据 "@, len as nat, " 字节"@)]
    } else {
        seq![]
    }
}

pub open spec fn min_nat(a: nat, b: nat) -> nat {
    if a < b {
        a
    } else {
        b
    }
}

/// The text of each line.
pub open spec fn lines_text(v: Seq<String>) -> Seq<Seq<char>> {
    v.map_values(|x: String| x@)
}

fn push_line(info: &mut Vec<String>, line: String)
    ensures
        lines_text(final(info)@) == lines_text(old(info)@).push(line@),
{
    info.push(line);
    assert(lines_text(info@) =~= lines_text(old(info)@).push(line@));
}

fn concat(a: String, b: &str) -> (r: String)
    ensures
        r@ == a@ + b@,
{
    let mut a = a;
    a.append(b);
    a
}

/// Appends the summary lines of a box of type `btype` with content from `s`
/// to `e`.
fn describe_box(d: &[u8], s: usize, e: usize, btype: &str, info: &mut Vec<String>)
    requires
        s <= e <= d@.len(),
    ensures
        lines_text(final(info)@) == lines_text(old(info)@) + box_info(d@, s as int, e as int, btype@),
{
    let len = e - s;
    let ghost t = btype@;
    let ghost old_lines = lines_text(info@);
    if str_eq(btype, "ftyp") && len >= 4 {
        push_line(info, concat(String::from_str("品牌 "), fourcc_at(d, s).as_str()));
        if len >= 8 {
            push_line(info, num_text("版本 ", be32(d, s + 4) as u64, ""));
        }
        push_line(info, num_text("兼容品牌 ", ((len - 4) / 4) as u64, " 项"));
    } else if str_eq(btype, "mvhd") && len >= 20 {
        if d[s] == 1 && len >= 32 {
            push_line(info, num_text("timescale ", be32(d, s + 20) as u64, ""));
            push_line(info, num_text("duration ", be64(d, s + 24), ""));
        } else {
            push_line(info, num_text("timescale ", be32(d, s + 12) as u64, ""));
            push_line(info, num_text("duration ", be32(d, s + 16) as u64, ""));
        }
    } else if str_eq(btype, "tkhd") && len >= 84 {
        let tid = if d[s] == 1 {
            be32(d, s + 20)
        } else {
            be32(d, s + 12)
        };
        push_line(info, num_text("track_id ", tid as u64, ""));
        let wh = len - 8;
        let w = be32(d, s + wh);
        let h = be32(d, s + wh + 4);
        if w > 0 {
            let mut line = num_text("显示尺寸 ", round_fixed_exec(w) as u64, "x");
            push_dec(&mut line, round_fixed_exec(h) as u64);
            push_line(info, line);
        }
    } else if str_eq(btype, "mdhd") && len >= 20 {
        let ts = if d[s] == 1 && len >= 32 {
            be32(d, s + 20)
        } else {
            be32(d, s + 12)
        };
        push_line(info, num_text("timescale ", ts as u64, ""));
    } else if str_eq(btype, "hdlr") && len >= 12 {
        push_line(info, concat(String::from_str("处理器 "), fourcc_at(d, s + 8).as_str()));
    } else if str_eq(btype, "stsd") && len >= 16 {
        let n = be32(d, s + 4);
        let n = if n < 9999 {
            n
        } else {
            9999
        };
        push_line(info, num_text("样本描述 ", n as u64, " 项"));
        push_line(info, concat(String::from_str("首项格式 "), fourcc_at(d, s + 12).as_str()));
    } else if str_eq(btype, "stsz") && len >= 12 {
        let ss = be32(d, s + 4);
        let cnt = be32(d, s + 8);
        let cnt = if cnt < 9999999 {
            cnt
        } else {
            9999999
        };
        if ss == 0 {
            push_line(info, num_text("变长样本 ", cnt as u64, " 个"));
        } else {
            let mut line = num_text("定长样本 ", ss as u64, " 字节 × ");
            push_dec(&mut line, cnt as u64);
            push_line(info, line);
        }
    } else if (str_eq(btype, "stco") || str_eq(btype, "co64")) && len >= 8 {
        let n = be32(d, s + 4);
        let n = if n < 9999999 {
            n
        } else {
            9999999
        };
        push_line(info, num_text("chunk ", n as u64, " 个"));
    } else if str_eq(btype, "stts") && len >= 8 {
        let n = be32(d, s + 4);
        let n = if n < 9999999 {
            n
        } else {
            9999999
        };
        push_line(info, num_text("时间-样本映射 ", n as u64, " 项"));
    } else if str_eq(btype, "avcC") && len >= 8 {
        let (profile, compat, level, ls, ns, np) = avcc_header_info(d, s, e);
        let mut l1 = num_text("Profile ", profile as u64, " / Compat 0x");
        push_hex2(&mut l1, compat);
        l1.append(num_text(" / Level ", level as u64, "").as_str());
        push_line(info, l1);
        push_line(info, num_text("NALU 长度前缀 ", ls as u64, " 字节"));
        let mut l3 = num_text("SPS ", ns as u64, " 个 / PPS ");
        l3.append(num_text("", np as u64, " 个").as_str());
        push_line(info, l3);
    } else if str_eq(btype, "hvcC") {
        push_line(info, String::from_str("HEVC 配置（v1 暂不解析）"));
    } else if str_eq(btype, "mdat") {
        push_line(info, num_text("媒体数据 ", len as u64, " 字节"));
    }
    assert(lines_text(info@) =~= old_lines + box_info(d@, s as int, e as int, t));
}

/// Where a box starts, the length of its header, and its size.
pub struct BoxHead {
    pub pos: int,
    pub header: int,
    pub size: int,
}

/// The header of the box at `pos`, when a whole box fits before `end`. A
/// 32-bit size of 1 announces a 64-bit size; a size of 0 runs to `end`.
pub open spec fn box_head(d: Seq<u8>, pos: int, end: int) -> Option<BoxHead> {
    if pos + 8 > end {
        None
    } else {
        let s32 = be32_at(d, pos);
        if s32 == 1 && pos + 16 > end {
            None
        } else {
            let header = if s32 == 1 {
                16int
            } else {
                8int
            };
            let size = if s32 == 1 {
                be64_at(d, pos + 8) as int
            } else if s32 == 0 {
                end - pos
            } else {
                s32 as int
            };
            if size < header || pos + size > end {
                None
            } else {
                Some(BoxHead { pos, header, size })
            }
        }
    }
}

/// The boxes from `pos` to `end`, `count` having been read before (at most
/// 512 on one level); the listing stops at the first box that does not fit.
pub open spec fn box_heads(d: Seq<u8>, pos: int, end: int, count: nat) -> Seq<BoxHead>
    decreases end - pos,
{
    if count >= 512 {
        seq![]
    } else {
        match box_head(d, pos, end) {
            None => seq![],
            Some(h) => seq![h] + box_heads(d, pos + h.size, end, count + 1),
        }
    }
}

/// Bytes before the child boxes of a container box.
pub open spec fn child_skip(t: Seq<char>) -> int {
    if t == "meta"@ {
        4
    } else {
        entry_skip(t) as int
    }
}

/// `nd` is the box with header `h`, read at nesting depth `depth`: a
/// container holds its child boxes (down to depth 8), another box its
/// summary lines.
pub open spec fn node_is(nd: Mp4BoxNode, d: Seq<u8>, h: BoxHead, depth: nat) -> bool
    decreases 9 - depth, 0int,
{
    let t = fourcc(d, h.pos + 4);
    let cs = h.pos + h.header;
    let ce = h.pos + h.size;
    &&& nd.btype@ == t
    &&& nd.offset == h.pos
    &&& nd.size == h.size
    &&& if container(t) {
        &&& nd.info@.len() == 0
        &&& if depth < 8 && cs + child_skip(t) <= ce {
            nodes_are(nd.children@, d, cs + child_skip(t), ce, depth + 1)
        } else {
            nd.children@.len() == 0
        }
    } else {
        &&& lines_text(nd.info@) == box_info(d, cs, ce, t)
        &&& nd.children@.len() == 0
    }
}

/// `ns` are the boxes from `start` to `end`, read at depth `depth`.
pub open spec fn nodes_are(ns: Seq<Mp4BoxNode>, d: Seq<u8>, start: int, end: int, depth: nat) -> bool
    decreases 9 - depth, 1int,
{
    let hs = box_heads(d, start, end, 0);
    &&& ns.len() == hs.len()
    &&& forall|i: int| 0 <= i < hs.len() ==> node_is(#[trigger] ns[i], d, hs[i], depth)
}

/// Reads the boxes from `start` to `end`, and the boxes inside containers,
/// down to nesting depth 8.
pub fn parse_boxes(d: &[u8], start: usize, end: usize, depth: u32) -> (r: Vec<Mp4BoxNode>)
    requires
        end <= d@.len(),
    ensures
        nodes_are(r@, d@, start as int, end as int, depth as nat),
    decreases 9 - depth,
{
    let ghost dd = d@;
    let mut out: Vec<Mp4BoxNode> = Vec::new();
    let mut pos = start;
    let ghost mut done: Seq<BoxHead> = seq![];
    while pos <= end && end - pos >= 8 && out.len() < 512
        invariant
            end <= dd.len(),
            dd == d@,
            out@.len() == done.len(),
            box_heads(dd, start as int, end as int, 0) == done + box_heads(
                dd,
                pos as int,
                end as int,
                out@.len() as nat,
            ),
            forall|i: int| 0 <= i < out@.len() ==> node_is(#[trigger] out@[i], dd, done[i], depth as nat),
        ensures
            box_heads(dd, start as int, end as int, 0) == done,
            out@.len() == done.len(),
            forall|i: int| 0 <= i < out@.len() ==> node_is(#[trigger] out@[i], dd, done[i], depth as nat),
        decreases end - pos,
    {
        let size32 = be32(d, pos);
        let btype = fourcc_at(d, pos + 4);
        let header: usize;
        let size: u64;
        if size32 == 1 {
            if end - pos < 16 {
                assert(box_heads(dd, pos as int, end as int, out@.len() as nat) =~= seq![]);
                assert(done + seq![] =~= done);
                break;
            }
            header = 16;
            size = be64(d, pos + 8);
        } else if size32 == 0 {
            header = 8;
            size = (end - pos) as u64;
        } else {
            header = 8;
            size = size32 as u64;
        }
        if size < header as u64 || size > (end - pos) as u64 {
            assert(box_heads(dd, pos as int, end as int, out@.len() as nat) =~= seq![]);
            assert(done + seq![] =~= done);
            break;
        }
        let ghost h = BoxHead { pos: pos as int, header: header as int, size: size as int };
        assert(box_head(dd, pos as int, end as int) == Some(h));
        let cs = pos + header;
        let ce = pos + size as usize;
        let mut info: Vec<String> = Vec::new();
        let mut children: Vec<Mp4BoxNode> = Vec::new();
        if is_container(btype.as_str()) {
            let skip = if str_eq(btype.as_str(), "meta") {
                4
            } else {
                sample_entry_skip(btype.as_str())
            };
            if depth < 8 && skip <= ce - cs {
                children = parse_boxes(d, cs + skip, ce, depth + 1);
            }
        } else {
            describe_box(d, cs, ce, btype.as_str(), &mut info);
            assert(lines_text(info@) =~= box_info(dd, cs as int, ce as int, btype@));
        }
        let node = Mp4BoxNode { btype, offset: pos as u64, size, info, children };
        assert(node_is(node, dd, h, depth as nat));
        let ghost old_out = out@;
        out.push(node);
        proof {
            let rest = box_heads(dd, ce as int, end as int, out@.len() as nat);
            assert(box_heads(dd, pos as int, end as int, old_out.len() as nat) == seq![h] + rest);
            assert(done.push(h) + rest =~= done + (seq![h] + rest));
            done = done.push(h);
            assert forall|i: int| 0 <= i < out@.len() implies node_is(#[trigger] out@[i], dd, done[i], depth as nat) by {
                if i < old_out.len() {
                    assert(out@[i] == old_out[i]);
                }
            }
        }
        pos = ce;
    }
    out
}

/// The parameter sets of an avcC record.
#[derive(Debug)]
pub struct AvccConfig {
    pub profile: u8,
    pub level: u8,
    pub length_size: usize,
    pub sps: Vec<Vec<u8>>,
    pub pps: Vec<Vec<u8>>,
}

/// Reads `k` entries, each a 16-bit length and that many bytes, from `p`:
/// their bytes and the position after them, or none when one does not fit
/// before `e`.
pub open spec fn avcc_entries(d: Seq<u8>, p: int, e: int, k: nat) -> Option<(Seq<Seq<u8>>, int)>
    decreases k,
{
    if k == 0 {
        Some((seq![], p))
    } else if p + 2 > e {
        None
    } else {
        let n = be16_at(d, p);
        if p + 2 + n > e {
            None
        } else {
            match avcc_entries(d, p + 2 + n, e, (k - 1) as nat) {
                None => None,
                Some((rest, q)) => Some((seq![d.subrange(p + 2, p + 2 + n)] + rest, q)),
            }
        }
    }
}

/// The avcC record from `s` to `e`: profile, level, NAL unit length size,
/// SPS and PPS units (header byte included).
pub open spec fn avcc_config(d: Seq<u8>, s: int, e: int) -> Option<(u8, u8, nat, Seq<Seq<u8>>, Seq<Seq<u8>>)> {
    if e - s < 7 {
        None
    } else {
        match avcc_entries(d, s + 6, e, (d[s + 5] % 32) as nat) {
            None => None,
            Some((sps, p)) => if p >= e {
                None
            } else {
                match avcc_entries(d, p + 1, e, d[p] as nat) {
                    None => None,
                    Some((pps, q)) => Some((d[s + 1], d[s + 3], (d[s + 4] % 4 + 1) as nat, sps, pps)),
                }
            },
        }
    }
}

/// The byte sequences of a list of byte vectors.
pub open spec fn byte_seqs(v: Seq<Vec<u8>>) -> Seq<Seq<u8>> {
    v.map_values(|x: Vec<u8>| x@)
}

fn read_entries(d: &[u8], p: usize, e: usize, k: usize) -> (r: Option<(Vec<Vec<u8>>, usize)>)
    requires
        p <= e <= d@.len(),
    ensures
        match avcc_entries(d@, p as int, e as int, k as nat) {
            Some((list, q)) => r is Some && byte_seqs((r->0).0@) == list && (r->0).1 == q,
            None => r is None,
        },
{
    let mut out: Vec<Vec<u8>> = Vec::new();
    let mut pos = p;
    let mut i: usize = 0;
    while i < k
        invariant
            i <= k,
            p <= pos <= e <= d@.len(),
            avcc_entries(d@, p as int, e as int, k as nat) == match avcc_entries(
                d@,
                pos as int,
                e as int,
                (k - i) as nat,
            ) {
                Some((rest, q)) => Some((byte_seqs(out@) + rest, q)),
                None => None,
            },
        decreases k - i,
    {
        if e - pos < 2 {
            return None;
        }
        let n = be16(d, pos) as usize;
        if n > e - (pos + 2) {
            return None;
        }
        let entry = vstd::slice::slice_to_vec(&d[pos + 2..pos + 2 + n]);
        let ghost old_out = out@;
        out.push(entry);
        proof {
            assert(byte_seqs(out@) =~= byte_seqs(old_out).push(d@.subrange(pos + 2, pos + 2 + n)));
            let tail = avcc_entries(d@, pos + 2 + n, e as int, (k - i - 1) as nat);
            if let Some((rest, q)) = tail {
                assert(byte_seqs(old_out) + (seq![d@.subrange(pos + 2, pos + 2 + n)] + rest) =~= byte_seqs(
                    out@,
                ) + rest);
            }
        }
        pos = pos + 2 + n;
        i += 1;
    }
    assert(byte_seqs(out@) + seq![] =~= byte_seqs(out@));
    Some((out, pos))
}

/// Reads a whole avcC record: its SPS and PPS units, each a complete NAL
/// unit (header byte included).
pub fn parse_avcc_full(d: &[u8], s: usize, e: usize) -> (r: Option<AvccConfig>)
    requires
        s <= e <= d@.len(),
    ensures
        match avcc_config(d@, s as int, e as int) {
            Some((profile, level, ls, sps, pps)) => r is Some && r->0.profile == profile
                && r->0.level == level && r->0.length_size == ls && byte_seqs(r->0.sps@) == sps
                && byte_seqs(r->0.pps@) == pps,
            None => r is None,
        },
{
    if e - s < 7 {
        return None;
    }
    let profile = d[s + 1];
    let level = d[s + 3];
    let length_size = (d[s + 4] % 4) as usize + 1;
    let num_sps = (d[s + 5] % 32) as usize;
    let (sps, p) = match read_entries(d, s + 6, e, num_sps) {
        Some(t) => t,
        None => {
            return None;
        },
    };
    if p >= e {
        return None;
    }
    let num_pps = d[p] as usize;
    let (pps, _) = match read_entries(d, p + 1, e, num_pps) {
        Some(t) => t,
        None => {
            return None;
        },
    };
    Some(AvccConfig { profile, level, length_size, sps, pps })
}

/// The first box of type `t` in a pre-order walk of `nodes` from `i`.
pub open spec fn first_in(nodes: Seq<Mp4BoxNode>, i: int, t: Seq<char>) -> Option<Mp4BoxNode>
    decreases nodes, nodes.len() - i,
{
    if i < 0 || i >= nodes.len() {
        None
    } else if nodes[i].btype@ == t {
        Some(nodes[i])
    } else {
        proof {
            assert(decreases_to!(nodes => nodes[i]));
        }
        match first_in(nodes[i].children@, 0, t) {
            Some(x) => Some(x),
            None => first_in(nodes, i + 1, t),
        }
    }
}

/// The first box of type `t` in a pre-order walk of `nodes`.
pub open spec fn first_box(nodes: Seq<Mp4BoxNode>, t: Seq<char>) -> Option<Mp4BoxNode> {
    first_in(nodes, 0, t)
}

/// Finds the first box of type `btype` in a pre-order walk of the tree.
pub fn find_first<'a>(nodes: &'a [Mp4BoxNode], btype: &str) -> (r: Option<&'a Mp4BoxNode>)
    ensures
        match first_box(nodes@, btype@) {
            Some(x) => r is Some && *r->0 == x,
            None => r is None,
        },
    decreases nodes@,
{
    let mut i: usize = 0;
    while i < nodes.len()
        invariant
            i <= nodes@.len(),
            first_box(nodes@, btype@) == first_in(nodes@, i as int, btype@),
        decreases nodes@.len() - i,
    {
        let n = &nodes[i];
        if str_eq(n.btype.as_str(), btype) {
            return Some(n);
        }
        proof {
            assert(decreases_to!(nodes@ => nodes@[i as int]));
        }
        match find_first(n.children.as_slice(), btype) {
            Some(f) => {
                return Some(f);
            },
            None => {},
        }
        i += 1;
    }
    None
}

/// Every box of type `t` in a pre-order walk of `nodes` from `i`.
pub open spec fn all_in(nodes: Seq<Mp4BoxNode>, i: int, t: Seq<char>) -> Seq<Mp4BoxNode>
    decreases nodes, nodes.len() - i,
{
    if i < 0 || i >= nodes.len() {
        seq![]
    } else {
        proof {
            assert(decreases_to!(nodes => nodes[i]));
        }
        (if nodes[i].btype@ == t {
            seq![nodes[i]]
        } else {
            seq![]
        }) + all_in(nodes[i].children@, 0, t) + all_in(nodes, i + 1, t)
    }
}

/// The boxes a list of references points to.
pub open spec fn derefs(v: Seq<&Mp4BoxNode>) -> Seq<Mp4BoxNode> {
    v.map_values(|x: &Mp4BoxNode| *x)
}

/// The first box that `find_first` finds is the first that `find_all`
/// collects, and it finds none exactly when `find_all` collects none.
pub proof fn lemma_first_is_first_of_all(nodes: Seq<Mp4BoxNode>, i: int, t: Seq<char>)
    ensures
        first_in(nodes, i, t) == if all_in(nodes, i, t).len() > 0 {
            Some(all_in(nodes, i, t)[0])
        } else {
            None
        },
    decreases nodes, nodes.len() - i,
{
    if 0 <= i < nodes.len() {
        assert(decreases_to!(nodes => nodes[i]));
        lemma_first_is_first_of_all(nodes[i].children@, 0, t);
        lemma_first_is_first_of_all(nodes, i + 1, t);
        let head: Seq<Mp4BoxNode> = if nodes[i].btype@ == t {
            seq![nodes[i]]
        } else {
            seq![]
        };
        let kids = all_in(nodes[i].children@, 0, t);
        let rest = all_in(nodes, i + 1, t);
        assert(all_in(nodes, i, t) == head + kids + rest);
        if nodes[i].btype@ != t && kids.len() == 0 {
            assert(head + kids + rest =~= rest);
        } else if nodes[i].btype@ != t {
            assert((head + kids + rest)[0] == kids[0]);
        }
    }
}

/// Collects every box of type `btype` in a pre-order walk of the tree.
pub fn find_all<'a>(nodes: &'a [Mp4BoxNode], btype: &str, out: &mut Vec<&'a Mp4BoxNode>)
    ensures
        derefs(final(out)@) == derefs(old(out)@) + all_in(nodes@, 0, btype@),
    decreases nodes@,
{
    let mut i: usize = 0;
    let ghost start = derefs(out@);
    assert(start =~= start + seq![]);
    while i < nodes.len()
        invariant
            i <= nodes@.len(),
            start == derefs(old(out)@),
            start + all_in(nodes@, 0, btype@) == derefs(out@) + all_in(nodes@, i as int, btype@),
        decreases nodes@.len() - i,
    {
        let n = &nodes[i];
        let ghost before = derefs(out@);
        if str_eq(n.btype.as_str(), btype) {
            out.push(n);
        }
        let ghost mid = derefs(out@);
        assert(mid =~= before + (if n.btype@ == btype@ {
            seq![*n]
        } else {
            seq![]
        }));
        proof {
            assert(decreases_to!(nodes@ => nodes@[i as int]));
        }
        find_all(n.children.as_slice(), btype, out);
        assert(before + all_in(nodes@, i as int, btype@) =~= derefs(out@) + all_in(
            nodes@,
            i + 1,
            btype@,
        ));
        i += 1;
    }
    assert(derefs(out@) + seq![] =~= derefs(out@));
}

/// The content of `node`, when its header and content lie in `d`.
pub open spec fn node_content(d: Seq<u8>, node: Mp4BoxNode) -> Option<Seq<u8>> {
    if node.offset + 4 <= d.len() {
        match box_range(d, node) {
            Some((a, b)) => Some(d.subrange(a, b)),
            None => None,
        }
    } else {
        None
    }
}

fn content_of<'a>(d: &'a [u8], node: &Mp4BoxNode) -> (r: Option<&'a [u8]>)
    ensures
        match node_content(d@, *node) {
            Some(c) => r is Some && r->0@ == c,
            None => r is None,
        },
{
    if node.offset <= d.len() as u64 && d.len() as u64 - node.offset >= 4 {
        box_content(d, node)
    } else {
        None
    }
}

/// A track of the file.
#[derive(Debug)]
pub struct Mp4TrackInfo {
    pub track_id: u32,
    pub handler: String,
    pub format: String,
    /// Display width, 16.16 fixed point; none when zero.
    pub width: Option<u32>,
    /// Display height, 16.16 fixed point; none when the width is zero.
    pub height: Option<u32>,
    pub timescale: u32,
    pub duration: u64,
}

/// The four-character code at `off` of the content of box `n`, when the
/// content holds at least `min` bytes; "?" otherwise.
pub open spec fn code_in(d: Seq<u8>, n: Option<Mp4BoxNode>, min: int, off: int) -> Seq<char> {
    match n {
        Some(x) => match node_content(d, x) {
            Some(c) => if c.len() >= min {
                fourcc(c, off)
            } else {
                "?"@
            },
            None => "?"@,
        },
        None => "?"@,
    }
}

/// The timescale and duration of a media header's content.
pub open spec fn mdhd_times(c: Option<Seq<u8>>) -> (nat, nat) {
    match c {
        Some(c) => if c.len() >= 32 && c[0] == 1 {
            (be32_at(c, 20), be64_at(c, 24))
        } else if c.len() >= 20 {
            (be32_at(c, 12), be32_at(c, 16))
        } else {
            (0, 0)
        },
        None => (0, 0),
    }
}

/// The track id, width and height of a track header's content.
pub open spec fn tkhd_values(c: Option<Seq<u8>>) -> (nat, Option<nat>, Option<nat>) {
    match c {
        Some(c) => if c.len() == 0 {
            (0, None, None)
        } else {
            let id = if c[0] == 1 && c.len() >= 24 {
                be32_at(c, 20)
            } else if c.len() >= 16 {
                be32_at(c, 12)
            } else {
                0
            };
            if c.len() >= 8 && be32_at(c, c.len() - 8) > 0 {
                (id, Some(be32_at(c, c.len() - 8)), Some(be32_at(c, c.len() - 4)))
            } else {
                (id, None, None)
            }
        },
        None => (0, None, None),
    }
}

/// The content of the first box of type `t` under `trak`.
pub open spec fn sub_content(d: Seq<u8>, trak: Mp4BoxNode, t: Seq<char>) -> Option<Seq<u8>> {
    match first_box(trak.children@, t) {
        Some(n) => node_content(d, n),
        None => None,
    }
}

/// `ti` summarizes track box `trak`.
pub open spec fn track_is(ti: Mp4TrackInfo, d: Seq<u8>, trak: Mp4BoxNode) -> bool {
    let (ts, dur) = mdhd_times(sub_content(d, trak, "mdhd"@));
    let (id, w, h) = tkhd_values(sub_content(d, trak, "tkhd"@));
    &&& ti.handler@ == code_in(d, first_box(trak.children@, "hdlr"@), 12, 8)
    &&& ti.format@ == code_in(d, first_box(trak.children@, "stsd"@), 16, 12)
    &&& ti.timescale == ts
    &&& ti.duration == dur
    &&& ti.track_id == id
    &&& (match w {
        Some(x) => ti.width == Some(x as u32),
        None => ti.width is None,
    })
    &&& (match h {
        Some(x) => ti.height == Some(x as u32),
        None => ti.height is None,
    })
}

fn code_of(d: &[u8], n: Option<&Mp4BoxNode>, min: usize, off: usize) -> (r: String)
    requires
        off + 4 <= min,
    ensures
        r@ == code_in(d@, match n {
            Some(x) => Some(*x),
            None => None,
        }, min as int, off as int),
{
    match n {
        Some(x) => match content_of(d, x) {
            Some(c) => if c.len() >= min {
                fourcc_at(c, off)
            } else {
                String::from_str("?")
            },
            None => String::from_str("?"),
        },
        None => String::from_str("?"),
    }
}

fn sub_content_of<'a>(d: &'a [u8], trak: &Mp4BoxNode, t: &str) -> (r: Option<&'a [u8]>)
    ensures
        match sub_content(d@, *trak, t@) {
            Some(c) => r is Some && r->0@ == c,
            None => r is None,
        },
{
    match find_first(trak.children.as_slice(), t) {
        Some(n) => content_of(d, n),
        None => None,
    }
}

/// The summary of one track box.
fn build_track(d: &[u8], trak: &Mp4BoxNode) -> (r: Mp4TrackInfo)
    ensures
        track_is(r, d@, *trak),
{
    let handler = code_of(d, find_first(trak.children.as_slice(), "hdlr"), 12, 8);
    let (timescale, duration) = match sub_content_of(d, trak, "mdhd") {
        Some(c) => if c.len() >= 32 && c[0] == 1 {
            (be32(c, 20), be64(c, 24))
        } else if c.len() >= 20 {
            (be32(c, 12), be32(c, 16) as u64)
        } else {
            (0, 0)
        },
        None => (0, 0),
    };
    let (track_id, width, height) = match sub_content_of(d, trak, "tkhd") {
        Some(c) => if c.len() == 0 {
            (0, None, None)
        } else {
            let id = if c[0] == 1 && c.len() >= 24 {
                be32(c, 20)
            } else if c.len() >= 16 {
                be32(c, 12)
            } else {
                0
            };
            if c.len() >= 8 && be32(c, c.len() - 8) > 0 {
                (id, Some(be32(c, c.len() - 8)), Some(be32(c, c.len() - 4)))
            } else {
                (id, None, None)
            }
        },
        None => (0, None, None),
    };
    let format = code_of(d, find_first(trak.children.as_slice(), "stsd"), 16, 12);
    Mp4TrackInfo { track_id, handler, format, width, height, timescale, duration }
}

/// Bytes in upper-case hexadecimal, separated by spaces.
pub fn hex_bytes(b: &[u8]) -> (r: String)
    ensures
        r@ == crate::h264::hex_join(b@),
{
    let r = crate::h264::hex_str(b, b.len());
    assert(b@.take(b@.len() as int) =~= b@);
    r
}

/// The boxes, tracks and avcC parameter sets of an MP4 file.
#[derive(Debug)]
pub struct Mp4Info {
    pub boxes: Vec<Mp4BoxNode>,
    pub tracks: Vec<Mp4TrackInfo>,
    pub has_avc: bool,
    pub avc_profile: Option<String>,
    pub avc_level: Option<String>,
    pub length_size: Option<u32>,
    pub sps_count: Option<u32>,
    pub pps_count: Option<u32>,
    pub sps_hex: Vec<String>,
    pub pps_hex: Vec<String>,
}

/// The avcC record of the first avcC box of the tree.
pub open spec fn tree_avcc(d: Seq<u8>, boxes: Seq<Mp4BoxNode>) -> Option<(u8, u8, nat, Seq<Seq<u8>>, Seq<Seq<u8>>)> {
    match first_box(boxes, "avcC"@) {
        Some(n) => match node_content(d, n) {
            Some(c) => avcc_config(c, 0, c.len() as int),
            None => None,
        },
        None => None,
    }
}

/// The hexadecimal text of each unit.
pub open spec fn hex_list(v: Seq<Seq<u8>>) -> Seq<Seq<char>> {
    v.map_values(|x: Seq<u8>| crate::h264::hex_join(x))
}

/// `info` describes the MP4 file `d`.
pub open spec fn mp4_info_is(info: Mp4Info, d: Seq<u8>) -> bool {
    let trakss = all_in(info.boxes@, 0, "trak"@);
    &&& nodes_are(info.boxes@, d, 0, d.len() as int, 0)
    &&& info.tracks@.len() == trakss.len()
    &&& forall|i: int| 0 <= i < trakss.len() ==> track_is(#[trigger] info.tracks@[i], d, trakss[i])
    &&& match tree_avcc(d, info.boxes@) {
        Some((profile, level, ls, sps, pps)) => {
            &&& info.has_avc
            &&& crate::h264::common::opt_text(info.avc_profile) == Some(crate::h264::common::profile_text(profile))
            &&& crate::h264::common::opt_text(info.avc_level) == Some(crate::h264::common::level_text(level))
            &&& info.length_size == Some(ls as u32)
            &&& info.sps_count == Some(sps.len() as u32)
            &&& info.pps_count == Some(pps.len() as u32)
            &&& lines_text(info.sps_hex@) == hex_list(sps)
            &&& lines_text(info.pps_hex@) == hex_list(pps)
        },
        None => {
            &&& !info.has_avc
            &&& info.avc_profile is None
            &&& info.avc_level is None
            &&& info.length_size is None
            &&& info.sps_count is None
            &&& info.pps_count is None
            &&& info.sps_hex@.len() == 0
            &&& info.pps_hex@.len() == 0
        },
    }
}

fn hex_all(v: &Vec<Vec<u8>>) -> (r: Vec<String>)
    ensures
        lines_text(r@) == hex_list(byte_seqs(v@)),
{
    let mut r: Vec<String> = Vec::new();
    let mut i: usize = 0;
    while i < v.len()
        invariant
            i <= v@.len(),
            lines_text(r@) == hex_list(byte_seqs(v@.take(i as int))),
        decreases v@.len() - i,
    {
        let ghost before = r@;
        r.push(hex_bytes(v[i].as_slice()));
        assert(lines_text(r@) =~= lines_text(before).push(crate::h264::hex_join(v@[i as int]@)));
        assert(hex_list(byte_seqs(v@.take(i + 1))) =~= hex_list(byte_seqs(v@.take(i as int))).push(
            crate::h264::hex_join(v@[i as int]@),
        ));
        i += 1;
    }
    assert(v@.take(i as int) =~= v@);
    r
}

/// Parses an MP4 file: its box tree, its tracks and the parameter sets of
/// its first avcC record.
pub fn parse_mp4_bytes(d: &[u8]) -> (r: Result<Mp4Info, String>)
    ensures
        r is Err <==> box_heads(d@, 0, d@.len() as int, 0).len() == 0,
        r is Err ==> r->Err_0@ == "未能解析出任何 MP4 盒子（文件损坏或不是 MP4）"@,
        r is Ok ==> mp4_info_is(r->Ok_0, d@),
{
    let boxes = parse_boxes(d, 0, d.len(), 0);
    if boxes.len() == 0 {
        return Err(String::from_str("未能解析出任何 MP4 盒子（文件损坏或不是 MP4）"));
    }
    let mut traks: Vec<&Mp4BoxNode> = Vec::new();
    find_all(boxes.as_slice(), "trak", &mut traks);
    assert(derefs(traks@) =~= all_in(boxes@, 0, "trak"@));
    let mut tracks: Vec<Mp4TrackInfo> = Vec::new();
    let mut i: usize = 0;
    while i < traks.len()
        invariant
            i <= traks@.len(),
            tracks@.len() == i,
            forall|j: int| 0 <= j < i ==> track_is(#[trigger] tracks@[j], d@, *traks@[j]),
        decreases traks@.len() - i,
    {
        let ghost before = tracks@;
        tracks.push(build_track(d, traks[i]));
        assert forall|j: int| 0 <= j < i + 1 implies track_is(#[trigger] tracks@[j], d@, *traks@[j]) by {
            if j < i {
                assert(tracks@[j] == before[j]);
            }
        }
        i += 1;
    }
    assert forall|j: int| 0 <= j < traks@.len() implies *traks@[j] == all_in(boxes@, 0, "trak"@)[j] by {
        assert(derefs(traks@)[j] == *traks@[j]);
    }
    let avcc = match find_first(boxes.as_slice(), "avcC") {
        Some(node) => match content_of(d, node) {
            Some(c) => parse_avcc_full(c, 0, c.len()),
            None => None,
        },
        None => None,
    };
    let info = match avcc {
        Some(cfg) => {
            let sps_hex = hex_all(&cfg.sps);
            let pps_hex = hex_all(&cfg.pps);
            Mp4Info {
                boxes,
                tracks,
                has_avc: true,
                avc_profile: Some(crate::h264::common::profile_name(cfg.profile)),
                avc_level: Some(crate::h264::common::level_name(cfg.level)),
                length_size: Some(cfg.length_size as u32),
                sps_count: Some(cfg.sps.len() as u32),
                pps_count: Some(cfg.pps.len() as u32),
                sps_hex,
                pps_hex,
            }
        },
        None => Mp4Info {
            boxes,
            tracks,
            has_avc: false,
            avc_profile: None,
            avc_level: None,
            length_size: None,
            sps_count: None,
            pps_count: None,
            sps_hex: Vec::new(),
            pps_hex: Vec::new(),
        },
    };
    Ok(info)
}

/// The NAL unit length of `ls` bytes (1 to 4) at `p`.
pub open spec fn nal_len_at(s: Seq<u8>, p: int, ls: nat) -> nat {
    if ls == 1 {
        s[p] as nat
    } else if ls == 2 {
        be16_at(s, p)
    } else if ls == 3 {
        (s[p] * 65536 + be16_at(s, p + 1)) as nat
    } else {
        be32_at(s, p)
    }
}

/// The start code that precedes each NAL unit of an Annex B stream.
pub open spec fn start_code() -> Seq<u8> {
    seq![0u8, 0u8, 0u8, 1u8]
}

/// Converts the length-prefixed NAL units of `s` from `p` to Annex B: the
/// bytes written, and 0 on success, 1 when a length prefix overruns the
/// sample, 2 when a length is zero or overruns the sample.
pub open spec fn conv_from(s: Seq<u8>, p: int, ls: nat) -> (Seq<u8>, nat)
    decreases s.len() - p,
{
    if p < 0 || p >= s.len() {
        (seq![], 0)
    } else if p + ls > s.len() {
        (seq![], 1)
    } else {
        let n = nal_len_at(s, p, ls);
        let q = p + ls;
        if n == 0 || q + n > s.len() {
            (seq![], 2)
        } else {
            let (rest, st) = conv_from(s, q + n, ls);
            (start_code() + s.subrange(q, q + n) + rest, st)
        }
    }
}

proof fn lemma_conv_status(s: Seq<u8>, p: int, ls: nat)
    ensures
        conv_from(s, p, ls).1 <= 2,
    decreases s.len() - p,
{
    if !(p < 0 || p >= s.len()) && !(p + ls > s.len()) {
        let n = nal_len_at(s, p, ls);
        let q = p + ls;
        if !(n == 0 || q + n > s.len()) {
            lemma_conv_status(s, q + n, ls);
        }
    }
}

fn push_start_code(out: &mut Vec<u8>)
    ensures
        final(out)@ == old(out)@ + start_code(),
{
    out.push(0);
    out.push(0);
    out.push(0);
    out.push(1);
    assert(out@ =~= old(out)@ + start_code());
}

fn append_bytes(out: &mut Vec<u8>, s: &[u8])
    ensures
        final(out)@ == old(out)@ + s@,
{
    let mut i: usize = 0;
    while i < s.len()
        invariant
            i <= s@.len(),
            out@ == old(out)@ + s@.take(i as int),
        decreases s@.len() - i,
    {
        out.push(s[i]);
        assert(s@.take(i + 1) =~= s@.take(i as int).push(s@[i as int]));
        i += 1;
    }
    assert(s@.take(i as int) =~= s@);
}

/// Converts one sample of length-prefixed NAL units (prefix of
/// `length_size` bytes) to start-code form, appending to `out`.
fn convert_length_prefixed(sample: &[u8], length_size: usize, out: &mut Vec<u8>) -> (r: Result<(), String>)
    requires
        1 <= length_size <= 4,
    ensures
        final(out)@ == old(out)@ + conv_from(sample@, 0, length_size as nat).0,
        conv_from(sample@, 0, length_size as nat).1 == 0 ==> r is Ok,
        conv_from(sample@, 0, length_size as nat).1 == 1 ==> r is Err && r->Err_0@ == "样本内长度前缀越界"@,
        conv_from(sample@, 0, length_size as nat).1 == 2 ==> r is Err && r->Err_0@ == "样本内 NALU 长度异常"@,
{
    let ghost s = sample@;
    let ghost ls = length_size as nat;
    let mut p: usize = 0;
    while p < sample.len()
        invariant
            p <= s.len(),
            s == sample@,
            ls == length_size,
            1 <= length_size <= 4,
            old(out)@ + conv_from(s, 0, ls).0 == out@ + conv_from(s, p as int, ls).0,
            conv_from(s, 0, ls).1 == conv_from(s, p as int, ls).1,
        decreases s.len() - p,
    {
        if length_size > sample.len() - p {
            return Err(String::from_str("样本内长度前缀越界"));
        }
        let n: usize = if length_size == 1 {
            sample[p] as usize
        } else if length_size == 2 {
            be16(sample, p) as usize
        } else if length_size == 3 {
            (sample[p] as usize) * 65536 + (be16(sample, p + 1) as usize)
        } else {
            be32(sample, p) as usize
        };
        p += length_size;
        if n == 0 || n > sample.len() - p {
            return Err(String::from_str("样本内 NALU 长度异常"));
        }
        let ghost before = out@;
        push_start_code(out);
        append_bytes(out, &sample[p..p + n]);
        assert(out@ =~= before + (start_code() + s.subrange(p as int, p + n)));
        p += n;
    }
    Ok(())
}

/// The first track of `ts` that holds an avcC box.
pub open spec fn first_avc_track(ts: Seq<Mp4BoxNode>) -> Option<Mp4BoxNode>
    decreases ts.len(),
{
    if ts.len() == 0 {
        None
    } else if first_box(ts[0].children@, "avcC"@) is Some {
        Some(ts[0])
    } else {
        first_avc_track(ts.drop_first())
    }
}

proof fn lemma_avc_track(ts: Seq<Mp4BoxNode>)
    ensures
        first_avc_track(ts) matches Some(t) ==> first_box(t.children@, "avcC"@) is Some,
    decreases ts.len(),
{
    if ts.len() > 0 && first_box(ts[0].children@, "avcC"@) is None {
        lemma_avc_track(ts.drop_first());
    }
}

/// The sample sizes of a sample-size table.
pub open spec fn sizes_of(c: Seq<u8>) -> Result<Seq<nat>, Seq<char>> {
    if c.len() < 12 {
        Err("stsz 表异常"@)
    } else {
        let ss = be32_at(c, 4);
        let n = be32_at(c, 8);
        if n == 0 || n > 5000000 {
            Err(num_seq("样本数量异常: "@, n, ""@))
        } else if ss > 0 {
            Ok(Seq::new(n, |i: int| ss))
        } else if c.len() >= 12 + n * 4 {
            Ok(Seq::new(n, |i: int| be32_at(c, 12 + i * 4)))
        } else {
            Err("stsz 表越界"@)
        }
    }
}

/// The chunk offsets of a chunk-offset table (64-bit ones for co64).
pub open spec fn offsets_of(c: Seq<u8>, wide: bool) -> Result<Seq<nat>, Seq<char>> {
    if c.len() < 8 {
        Err("stco 表异常"@)
    } else {
        let n = be32_at(c, 4);
        let es: nat = if wide {
            8
        } else {
            4
        };
        if c.len() < 8 + n * es {
            Err("stco 表越界"@)
        } else {
            Ok(
                Seq::new(
                    n,
                    |i: int|
                        if wide {
                            be64_at(c, 8 + i * 8)
                        } else {
                            be32_at(c, 8 + i * 4)
                        },
                ),
            )
        }
    }
}

/// The (first chunk, samples per chunk) entries of a sample-to-chunk table.
pub open spec fn stsc_of(c: Seq<u8>) -> Result<Seq<(nat, nat)>, Seq<char>> {
    if c.len() < 8 {
        Err("stsc 表异常"@)
    } else {
        let n = be32_at(c, 4);
        if c.len() < 8 + n * 12 {
            Err("stsc 表越界"@)
        } else {
            Ok(Seq::new(n, |i: int| (be32_at(c, 8 + i * 12), be32_at(c, 12 + i * 12))))
        }
    }
}

/// The sample-to-chunk entry in force from entry `idx` for chunk number
/// `c1` (counted from 1).
pub open spec fn advance(es: Seq<(nat, nat)>, idx: int, c1: nat) -> int
    decreases es.len() - idx,
{
    if idx >= 0 && idx + 1 < es.len() && es[idx + 1].0 <= c1 {
        advance(es, idx + 1, c1)
    } else {
        idx
    }
}

/// The sample-to-chunk entry in force for chunk `c` (counted from 0).
pub open spec fn chunk_entry(es: Seq<(nat, nat)>, c: nat) -> int
    decreases c,
{
    if c == 0 {
        advance(es, 0, 1)
    } else {
        advance(es, chunk_entry(es, (c - 1) as nat), c + 1)
    }
}

proof fn lemma_advance(es: Seq<(nat, nat)>, idx: int, c1: nat)
    requires
        0 <= idx < es.len(),
    ensures
        idx <= advance(es, idx, c1) < es.len(),
    decreases es.len() - idx,
{
    if idx + 1 < es.len() && es[idx + 1].0 <= c1 {
        lemma_advance(es, idx + 1, c1);
    }
}

proof fn lemma_chunk_entry(es: Seq<(nat, nat)>, c: nat)
    requires
        es.len() > 0,
    ensures
        0 <= chunk_entry(es, c) < es.len(),
    decreases c,
{
    if c == 0 {
        lemma_advance(es, 0, 1);
    } else {
        lemma_chunk_entry(es, (c - 1) as nat);
        lemma_advance(es, chunk_entry(es, (c - 1) as nat), c + 1);
    }
}

/// Entry `j` of a sample-to-chunk table is the one in force for chunk
/// number `c1` (counted from 1): the last whose first chunk is at most
/// `c1`, or the first entry when none is.
pub open spec fn in_force(es: Seq<(nat, nat)>, j: int, c1: nat) -> bool {
    &&& 0 <= j < es.len()
    &&& es[j].0 <= c1 || j == 0
    &&& j + 1 == es.len() || c1 < es[j + 1].0
}

proof fn lemma_advance_in_force(es: Seq<(nat, nat)>, idx: int, c1: nat)
    requires
        0 <= idx < es.len(),
    ensures
        advance(es, idx, c1) == idx || es[advance(es, idx, c1)].0 <= c1,
        advance(es, idx, c1) + 1 == es.len() || c1 < es[advance(es, idx, c1) + 1].0,
    decreases es.len() - idx,
{
    if idx + 1 < es.len() && es[idx + 1].0 <= c1 {
        lemma_advance_in_force(es, idx + 1, c1);
    }
}

proof fn lemma_chunk_entry_in_force(es: Seq<(nat, nat)>, c: nat)
    requires
        es.len() > 0,
        forall|i: int, k: int| 0 <= i < k < es.len() ==> #[trigger] es[i].0 <= #[trigger] es[k].0,
    ensures
        in_force(es, chunk_entry(es, c), c + 1),
    decreases c,
{
    lemma_chunk_entry(es, c);
    if c == 0 {
        lemma_advance_in_force(es, 0, 1);
    } else {
        let prev = chunk_entry(es, (c - 1) as nat);
        lemma_chunk_entry_in_force(es, (c - 1) as nat);
        lemma_chunk_entry(es, (c - 1) as nat);
        lemma_advance_in_force(es, prev, c + 1);
    }
}

/// In a sample-to-chunk table whose first chunks do not decrease, chunk
/// number `k + 1` has the samples per chunk of the entry in force for it:
/// the last entry whose first chunk is at most `k + 1` (the first entry
/// for chunks before any). An entry applies from its own first chunk on.
pub proof fn lemma_chunk_samples(es: Seq<(nat, nat)>, n: nat, k: int, j: int)
    requires
        forall|i: int, m: int| 0 <= i < m < es.len() ==> #[trigger] es[i].0 <= #[trigger] es[m].0,
        0 <= k < n,
        0 <= j < es.len(),
        es[j].0 <= k + 1 || j == 0,
        j + 1 == es.len() || k + 1 < es[j + 1].0,
    ensures
        per_chunk(es, n)[k] == es[j].1,
{
    let e = chunk_entry(es, k as nat);
    lemma_chunk_entry_in_force(es, k as nat);
    if e < j {
        assert(es[e + 1].0 <= es[j].0);
    } else if j < e {
        assert(es[j + 1].0 <= es[e].0);
    }
}

/// The number of samples of each of `n` chunks.
pub open spec fn per_chunk(es: Seq<(nat, nat)>, n: nat) -> Seq<nat> {
    Seq::new(n, |c: int| es[chunk_entry(es, c as nat)].1)
}

/// The parameter-set units, each after a start code.
pub open spec fn with_start_codes(units: Seq<Seq<u8>>) -> Seq<u8>
    decreases units.len(),
{
    if units.len() == 0 {
        seq![]
    } else {
        with_start_codes(units.drop_last()) + start_code() + units.last()
    }
}

/// The text of a sample that lies outside the file.
pub open spec fn sample_error(idx: nat, size: nat) -> Seq<char> {
    num_seq("样本 #"@, idx, " 越界（size="@) + num_seq(""@, size, "），文件可能损坏"@)
}

/// The limit on the size of the extracted stream.
pub open spec fn out_limit() -> nat {
    2147483648
}

/// Copies the samples from chunk `c` on, `idx` samples having been copied
/// and `out` written: the stream and the number of samples, or an error.
pub open spec fn chunks_from(
    d: Seq<u8>,
    offs: Seq<nat>,
    per: Seq<nat>,
    sizes: Seq<nat>,
    ls: nat,
    c: nat,
    idx: nat,
    out: Seq<u8>,
) -> Result<(Seq<u8>, nat), Seq<char>>
    decreases offs.len() - c, 4294967296int,
{
    if c >= offs.len() || c >= per.len() || per[c as int] > 4294967295 {
        Ok((out, idx))
    } else {
        samples_from(d, offs, per, sizes, ls, c, 0, offs[c as int] as int, idx, out)
    }
}

/// Copies the samples of chunk `c` from its sample `j`, at file position
/// `pos`, then those of the following chunks.
pub open spec fn samples_from(
    d: Seq<u8>,
    offs: Seq<nat>,
    per: Seq<nat>,
    sizes: Seq<nat>,
    ls: nat,
    c: nat,
    j: nat,
    pos: int,
    idx: nat,
    out: Seq<u8>,
) -> Result<(Seq<u8>, nat), Seq<char>>
    decreases offs.len() - c, per[c as int] - j,
{
    if c >= offs.len() || c >= per.len() || per[c as int] > 4294967295 {
        Ok((out, idx))
    } else if j >= per[c as int] || idx >= sizes.len() {
        chunks_from(d, offs, per, sizes, ls, c + 1, idx, out)
    } else {
        let size = sizes[idx as int];
        if size == 0 || pos + size > d.len() {
            Err(sample_error(idx + 1, size))
        } else {
            let (app, st) = conv_from(d.subrange(pos, pos + size), 0, ls);
            if st == 1 {
                Err("样本内长度前缀越界"@)
            } else if st == 2 {
                Err("样本内 NALU 长度异常"@)
            } else if out.len() + app.len() > out_limit() {
                Err("输出超过 2GB 上限，已中止"@)
            } else {
                samples_from(d, offs, per, sizes, ls, c, j + 1, pos + size, idx + 1, out + app)
            }
        }
    }
}

/// The numbers of a vector of sizes or offsets.
pub open spec fn nats_usize(v: Seq<usize>) -> Seq<nat> {
    v.map_values(|x: usize| x as nat)
}

pub open spec fn nats_u64(v: Seq<u64>) -> Seq<nat> {
    v.map_values(|x: u64| x as nat)
}

pub open spec fn nats_u32(v: Seq<u32>) -> Seq<nat> {
    v.map_values(|x: u32| x as nat)
}

pub open spec fn pairs_u32(v: Seq<(u32, u32)>) -> Seq<(nat, nat)> {
    v.map_values(|x: (u32, u32)| (x.0 as nat, x.1 as nat))
}

fn read_sizes(c: &[u8]) -> (r: Result<Vec<usize>, String>)
    ensures
        match sizes_of(c@) {
            Ok(v) => r is Ok && nats_usize(r->Ok_0@) == v,
            Err(e) => r is Err && r->Err_0@ == e,
        },
{
    if c.len() < 12 {
        return Err(String::from_str("stsz 表异常"));
    }
    let sample_size = be32(c, 4) as usize;
    let count = be32(c, 8) as usize;
    if count == 0 || count > 5_000_000 {
        return Err(num_text("样本数量异常: ", count as u64, ""));
    }
    if sample_size == 0 && c.len() < 12 + count * 4 {
        return Err(String::from_str("stsz 表越界"));
    }
    let mut sizes: Vec<usize> = Vec::new();
    let mut i: usize = 0;
    while i < count
        invariant
            i <= count <= 5_000_000,
            sizes@.len() == i,
            sample_size == be32_at(c@, 4),
            count == be32_at(c@, 8),
            c@.len() >= 12,
            sample_size == 0 ==> c@.len() >= 12 + count * 4,
            forall|k: int|
                0 <= k < i ==> #[trigger] sizes@[k] == if sample_size > 0 {
                    sample_size as nat
                } else {
                    be32_at(c@, 12 + k * 4)
                },
        decreases count - i,
    {
        if sample_size > 0 {
            sizes.push(sample_size);
        } else {
            sizes.push(be32(c, 12 + i * 4) as usize);
        }
        i += 1;
    }
    proof {
        let v = sizes_of(c@)->Ok_0;
        assert(nats_usize(sizes@) =~= v);
    }
    Ok(sizes)
}

fn read_offsets(c: &[u8], wide: bool) -> (r: Result<Vec<u64>, String>)
    ensures
        match offsets_of(c@, wide) {
            Ok(v) => r is Ok && nats_u64(r->Ok_0@) == v,
            Err(e) => r is Err && r->Err_0@ == e,
        },
{
    if c.len() < 8 {
        return Err(String::from_str("stco 表异常"));
    }
    let count = be32(c, 4) as u64;
    let es: u64 = if wide {
        8
    } else {
        4
    };
    if (c.len() as u64) < 8 + count * es {
        return Err(String::from_str("stco 表越界"));
    }
    let mut offs: Vec<u64> = Vec::new();
    let mut i: u64 = 0;
    let clen = c.len();
    while i < count
        invariant
            c@.len() == clen,
            i <= count,
            count == be32_at(c@, 4),
            es == if wide {
                8u64
            } else {
                4u64
            },
            c@.len() >= 8 + count * es,
            offs@.len() == i,
            forall|k: int|
                0 <= k < i ==> #[trigger] offs@[k] == if wide {
                    be64_at(c@, 8 + k * 8)
                } else {
                    be32_at(c@, 8 + k * 4)
                },
        decreases count - i,
    {
        let iu = i as usize;
        if wide {
            offs.push(be64(c, 8 + iu * 8));
        } else {
            offs.push(be32(c, 8 + iu * 4) as u64);
        }
        i += 1;
    }
    proof {
        let v = offsets_of(c@, wide)->Ok_0;
        assert(nats_u64(offs@) =~= v);
    }
    Ok(offs)
}

fn read_stsc(c: &[u8]) -> (r: Result<Vec<(u32, u32)>, String>)
    ensures
        match stsc_of(c@) {
            Ok(v) => r is Ok && pairs_u32(r->Ok_0@) == v,
            Err(e) => r is Err && r->Err_0@ == e,
        },
{
    if c.len() < 8 {
        return Err(String::from_str("stsc 表异常"));
    }
    let count = be32(c, 4) as u64;
    if (c.len() as u64) < 8 + count * 12 {
        return Err(String::from_str("stsc 表越界"));
    }
    let mut es: Vec<(u32, u32)> = Vec::new();
    let mut i: u64 = 0;
    let clen = c.len();
    while i < count
        invariant
            c@.len() == clen,
            i <= count,
            count == be32_at(c@, 4),
            c@.len() >= 8 + count * 12,
            es@.len() == i,
            forall|k: int|
                0 <= k < i ==> (#[trigger] es@[k]).0 == be32_at(c@, 8 + k * 12) && es@[k].1
                    == be32_at(c@, 12 + k * 12),
        decreases count - i,
    {
        let iu = i as usize;
        es.push((be32(c, 8 + iu * 12), be32(c, 12 + iu * 12)));
        i += 1;
    }
    proof {
        let v = stsc_of(c@)->Ok_0;
        assert(pairs_u32(es@) =~= v);
    }
    Ok(es)
}

/// The number of samples of each of `n` chunks.
fn chunk_counts(es: &Vec<(u32, u32)>, n: usize) -> (r: Vec<u32>)
    requires
        n > 0 ==> es@.len() > 0,
        n <= 4294967295,
    ensures
        nats_u32(r@) == per_chunk(pairs_u32(es@), n as nat),
{
    let ghost ps = pairs_u32(es@);
    let mut r: Vec<u32> = Vec::new();
    let mut idx: usize = 0;
    let mut c: usize = 0;
    let elen = es.len();
    while c < n
        invariant
            es@.len() == elen,
            c <= n <= 4294967295,
            n > 0 ==> es@.len() > 0,
            ps == pairs_u32(es@),
            r@.len() == c,
            c > 0 ==> idx == chunk_entry(ps, (c - 1) as nat),
            c == 0 ==> idx == 0,
            es@.len() > 0 ==> idx < es@.len(),
            forall|k: int| 0 <= k < c ==> #[trigger] r@[k] == ps[chunk_entry(ps, k as nat)].1,
        decreases n - c,
    {
        let ghost idx0 = idx as int;
        proof {
            lemma_advance(ps, idx0, (c + 1) as nat);
        }
        while idx + 1 < es.len() && es[idx + 1].0 as usize <= c + 1
            invariant
                idx0 <= idx < es@.len(),
                es@.len() == elen,
                c < n <= 4294967295,
                ps == pairs_u32(es@),
                advance(ps, idx0, (c + 1) as nat) == advance(ps, idx as int, (c + 1) as nat),
            decreases es@.len() - idx,
        {
            idx += 1;
        }
        proof {
            if c == 0 {
                assert(advance(ps, 0, 1) == chunk_entry(ps, 0));
            } else {
                assert(chunk_entry(ps, c as nat) == advance(ps, chunk_entry(ps, (c - 1) as nat), (c + 1) as nat));
            }
        }
        r.push(es[idx].1);
        c += 1;
    }
    proof {
        assert(nats_u32(r@) =~= per_chunk(ps, n as nat));
    }
    r
}

/// The parameter-set units, each after a start code.
fn prefix_units(sps: &Vec<Vec<u8>>, pps: &Vec<Vec<u8>>) -> (r: Vec<u8>)
    ensures
        r@ == with_start_codes(byte_seqs(sps@) + byte_seqs(pps@)),
{
    let ghost all = byte_seqs(sps@) + byte_seqs(pps@);
    let mut out: Vec<u8> = Vec::new();
    let mut i: usize = 0;
    while i < sps.len()
        invariant
            i <= sps@.len(),
            all == byte_seqs(sps@) + byte_seqs(pps@),
            out@ == with_start_codes(all.take(i as int)),
        decreases sps@.len() - i,
    {
        push_start_code(&mut out);
        append_bytes(&mut out, sps[i].as_slice());
        assert(all.take(i + 1).drop_last() =~= all.take(i as int));
        i += 1;
    }
    let mut j: usize = 0;
    while j < pps.len()
        invariant
            j <= pps@.len(),
            sps@.len() <= all.len(),
            all == byte_seqs(sps@) + byte_seqs(pps@),
            out@ == with_start_codes(all.take(sps@.len() + j)),
        decreases pps@.len() - j,
    {
        push_start_code(&mut out);
        append_bytes(&mut out, pps[j].as_slice());
        assert(all.take(sps@.len() + j + 1).drop_last() =~= all.take(sps@.len() + j));
        j += 1;
    }
    assert(all.take(sps@.len() + j) =~= all);
    out
}

/// Copies the samples of every chunk, after `out`: the number of samples.
fn copy_samples(
    d: &[u8],
    offs: &Vec<u64>,
    per: &Vec<u32>,
    sizes: &Vec<usize>,
    ls: usize,
    out: &mut Vec<u8>,
) -> (r: Result<usize, String>)
    requires
        offs@.len() == per@.len(),
        1 <= ls <= 4,
    ensures
        match chunks_from(d@, nats_u64(offs@), nats_u32(per@), nats_usize(sizes@), ls as nat, 0, 0, old(out)@) {
            Ok((o, k)) => r is Ok && r->Ok_0 == k && final(out)@ == o,
            Err(e) => r is Err && r->Err_0@ == e,
        },
{
    let ghost (dd, os, ps, ss, l) = (d@, nats_u64(offs@), nats_u32(per@), nats_usize(sizes@), ls as nat);
    let ghost goal = chunks_from(dd, os, ps, ss, l, 0, 0, old(out)@);
    let mut idx: usize = 0;
    let mut c: usize = 0;
    while c < offs.len()
        invariant
            c <= offs@.len() == per@.len(),
            dd == d@,
            os == nats_u64(offs@),
            ps == nats_u32(per@),
            ss == nats_usize(sizes@),
            l == ls,
            1 <= ls <= 4,
            idx <= sizes@.len(),
            goal == chunks_from(d@, nats_u64(offs@), nats_u32(per@), nats_usize(sizes@), ls as nat, 0, 0, old(out)@),
            goal == chunks_from(dd, os, ps, ss, l, c as nat, idx as nat, out@),
        decreases offs@.len() - c,
    {
        let mut pos: u64 = offs[c];
        let mut j: u32 = 0;
        assert(goal == samples_from(dd, os, ps, ss, l, c as nat, 0, pos as int, idx as nat, out@));
        while j < per[c]
            invariant
                c < offs@.len() == per@.len(),
                dd == d@,
                os == nats_u64(offs@),
                ps == nats_u32(per@),
                ss == nats_usize(sizes@),
                l == ls,
                1 <= ls <= 4,
                idx <= sizes@.len(),
                goal == chunks_from(d@, nats_u64(offs@), nats_u32(per@), nats_usize(sizes@), ls as nat, 0, 0, old(out)@),
                goal == samples_from(dd, os, ps, ss, l, c as nat, j as nat, pos as int, idx as nat, out@),
            ensures
                goal == chunks_from(dd, os, ps, ss, l, (c + 1) as nat, idx as nat, out@),
            decreases per@[c as int] - j,
        {
            if idx >= sizes.len() {
                break;
            }
            let size = sizes[idx];
            assert(ss[idx as int] == size as nat);
            assert(ps[c as int] == per@[c as int] as nat);
            assert(os[c as int] == offs@[c as int] as nat);
            idx += 1;
            if size == 0 || pos > d.len() as u64 || size as u64 > d.len() as u64 - pos {
                let mut e = num_text("样本 #", idx as u64, " 越界（size=");
                e.append(num_text("", size as u64, "），文件可能损坏").as_str());
                return Err(e);
            }
            let p = pos as usize;
            assert(p as int == pos as int);
            assert(d@.subrange(p as int, p + size) == d@.subrange(pos as int, pos + size));
            let ghost before = out@;
            proof {
                lemma_conv_status(d@.subrange(pos as int, pos + size), 0, ls as nat);
            }
            match convert_length_prefixed(&d[p..p + size], ls, out) {
                Ok(()) => {},
                Err(e) => {
                    return Err(e);
                },
            }
            pos = pos + size as u64;
            if out.len() > 2147483648 {
                return Err(String::from_str("输出超过 2GB 上限，已中止"));
            }
            j += 1;
        }
        c += 1;
    }
    Ok(idx)
}

/// The Annex B stream of the first track of the tree that holds an avcC
/// box, with the number of samples copied.
pub open spec fn extract_from(d: Seq<u8>, boxes: Seq<Mp4BoxNode>) -> Result<(Seq<u8>, nat), Seq<char>> {
    match first_avc_track(all_in(boxes, 0, "trak"@)) {
        None => Err("未找到含 H.264 (avcC) 的视频轨道（该 MP4 可能不是 H.264 编码）"@),
        Some(t) => match node_content(d, first_box(t.children@, "avcC"@)->0) {
            None => Err("avcC 内容越界"@),
            Some(ac) => match avcc_config(ac, 0, ac.len() as int) {
                None => Err("avcC 配置解析失败"@),
                Some((_p, _l, ls, sps, pps)) => extract_tables(d, t, ls, with_start_codes(sps + pps)),
            },
        },
    }
}

/// The chunk-offset table of a track: stco, else co64.
pub open spec fn offset_table(t: Mp4BoxNode) -> Option<Mp4BoxNode> {
    match first_box(t.children@, "stco"@) {
        Some(n) => Some(n),
        None => first_box(t.children@, "co64"@),
    }
}

/// The Annex B stream of track `t`, whose NAL unit lengths take `ls`
/// bytes, after the parameter sets `prefix`.
pub open spec fn extract_tables(d: Seq<u8>, t: Mp4BoxNode, ls: nat, prefix: Seq<u8>) -> Result<(Seq<u8>, nat), Seq<char>> {
    let ch = t.children@;
    if first_box(ch, "stsz"@) is None {
        Err("缺少样本尺寸表 stsz"@)
    } else if first_box(ch, "stsc"@) is None {
        Err("缺少样本-块映射表 stsc"@)
    } else if offset_table(t) is None {
        Err("缺少 chunk 偏移表 stco"@)
    } else {
        let stsz = first_box(ch, "stsz"@)->0;
        let stsc = first_box(ch, "stsc"@)->0;
        let stco = offset_table(t)->0;
        match node_content(d, stsz) {
            None => Err("stsz 内容越界"@),
            Some(zc) => match sizes_of(zc) {
                Err(e) => Err(e),
                Ok(sizes) => match node_content(d, stco) {
                    None => Err("stco 内容越界"@),
                    Some(oc) => match offsets_of(oc, stco.btype@ == "co64"@) {
                        Err(e) => Err(e),
                        Ok(offs) => match node_content(d, stsc) {
                            None => Err("stsc 内容越界"@),
                            Some(cc) => match stsc_of(cc) {
                                Err(e) => Err(e),
                                Ok(es) => if offs.len() > 0 && es.len() == 0 {
                                    Err("stsc 表为空但存在 chunk，文件可能损坏"@)
                                } else {
                                    match chunks_from(d, offs, per_chunk(es, offs.len()), sizes, ls, 0, 0, prefix) {
                                        Err(e) => Err(e),
                                        Ok((o, k)) => if k == 0 {
                                            Err("未提取到任何样本"@)
                                        } else {
                                            Ok((o, k))
                                        },
                                    }
                                },
                            },
                        },
                    },
                },
            },
        }
    }
}

/// Converts the H.264 samples of an MP4 file to an Annex B stream: the
/// parameter sets of the avcC record, then every sample of the first track
/// that holds an avcC box, each NAL unit after a start code. Returns the
/// stream and the number of samples.
pub fn extract_annexb_bytes(d: &[u8]) -> (r: Result<(Vec<u8>, usize), String>)
    ensures
        exists|boxes: Seq<Mp4BoxNode>|
            #![trigger extract_from(d@, boxes)]
            nodes_are(boxes, d@, 0, d@.len() as int, 0) && match extract_from(d@, boxes) {
                Ok((o, k)) => r is Ok && (r->Ok_0).0@ == o && (r->Ok_0).1 == k,
                Err(e) => r is Err && r->Err_0@ == e,
            },
{
    let boxes = parse_boxes(d, 0, d.len(), 0);
    let r = extract_in(d, &boxes);
    assert(nodes_are(boxes@, d@, 0, d@.len() as int, 0));
    r
}

fn extract_in(d: &[u8], boxes: &Vec<Mp4BoxNode>) -> (r: Result<(Vec<u8>, usize), String>)
    ensures
        match extract_from(d@, boxes@) {
            Ok((o, k)) => r is Ok && (r->Ok_0).0@ == o && (r->Ok_0).1 == k,
            Err(e) => r is Err && r->Err_0@ == e,
        },
{
    let mut traks: Vec<&Mp4BoxNode> = Vec::new();
    find_all(boxes.as_slice(), "trak", &mut traks);
    let ghost ts = all_in(boxes@, 0, "trak"@);
    assert(derefs(traks@) =~= ts);
    let mut i: usize = 0;
    let mut video: Option<&Mp4BoxNode> = None;
    assert(ts.skip(0) =~= ts);
    assert(ts.skip(ts.len() as int) =~= Seq::<Mp4BoxNode>::empty());
    while i < traks.len()
        invariant_except_break
            video is None,
        invariant
            i <= traks@.len(),
            derefs(traks@) == ts,
            traks@.len() == ts.len(),
            ts.skip(ts.len() as int) == Seq::<Mp4BoxNode>::empty(),
            first_avc_track(ts) == first_avc_track(ts.skip(i as int)),
        ensures
            match first_avc_track(ts) {
                Some(t) => video is Some && *video->0 == t,
                None => video is None,
            },
        decreases traks@.len() - i,
    {
        assert(ts.skip(i as int)[0] == *traks@[i as int]);
        assert(ts.skip(i as int).drop_first() =~= ts.skip(i + 1));
        if find_first(traks[i].children.as_slice(), "avcC").is_some() {
            video = Some(traks[i]);
            break;
        }
        i += 1;
    }
    let t = match video {
        Some(t) => t,
        None => {
            return Err(String::from_str("未找到含 H.264 (avcC) 的视频轨道（该 MP4 可能不是 H.264 编码）"));
        },
    };
    proof {
        lemma_avc_track(ts);
    }
    let avcc_node = match find_first(t.children.as_slice(), "avcC") {
        Some(n) => n,
        None => {
            return Err(String::from_str("avcC 查找失败"));
        },
    };
    let avcc_content = match content_of(d, avcc_node) {
        Some(c) => c,
        None => {
            return Err(String::from_str("avcC 内容越界"));
        },
    };
    let avcc = match parse_avcc_full(avcc_content, 0, avcc_content.len()) {
        Some(a) => a,
        None => {
            return Err(String::from_str("avcC 配置解析失败"));
        },
    };
    let prefix = prefix_units(&avcc.sps, &avcc.pps);
    extract_track(d, t, avcc.length_size, prefix)
}

fn extract_track(d: &[u8], t: &Mp4BoxNode, ls: usize, prefix: Vec<u8>) -> (r: Result<(Vec<u8>, usize), String>)
    requires
        1 <= ls <= 4,
    ensures
        match extract_tables(d@, *t, ls as nat, prefix@) {
            Ok((o, k)) => r is Ok && (r->Ok_0).0@ == o && (r->Ok_0).1 == k,
            Err(e) => r is Err && r->Err_0@ == e,
        },
{
    let ch = t.children.as_slice();
    let stsz = match find_first(ch, "stsz") {
        Some(n) => n,
        None => {
            return Err(String::from_str("缺少样本尺寸表 stsz"));
        },
    };
    let stsc = match find_first(ch, "stsc") {
        Some(n) => n,
        None => {
            return Err(String::from_str("缺少样本-块映射表 stsc"));
        },
    };
    let stco = match find_first(ch, "stco") {
        Some(n) => n,
        None => match find_first(ch, "co64") {
            Some(n) => n,
            None => {
                return Err(String::from_str("缺少 chunk 偏移表 stco"));
            },
        },
    };
    let sz_c = match content_of(d, stsz) {
        Some(c) => c,
        None => {
            return Err(String::from_str("stsz 内容越界"));
        },
    };
    let sizes = read_sizes(sz_c)?;
    let co_c = match content_of(d, stco) {
        Some(c) => c,
        None => {
            return Err(String::from_str("stco 内容越界"));
        },
    };
    let is_co64 = str_eq(stco.btype.as_str(), "co64");
    let offs = read_offsets(co_c, is_co64)?;
    let sc_c = match content_of(d, stsc) {
        Some(c) => c,
        None => {
            return Err(String::from_str("stsc 内容越界"));
        },
    };
    let entries = read_stsc(sc_c)?;
    if offs.len() > 0 && entries.len() == 0 {
        return Err(String::from_str("stsc 表为空但存在 chunk，文件可能损坏"));
    }
    let per = chunk_counts(&entries, offs.len());
    let mut out = prefix;
    let count = copy_samples(d, &offs, &per, &sizes, ls, &mut out)?;
    if count == 0 {
        return Err(String::from_str("未提取到任何样本"));
    }
    Ok((out, count))
}

proof fn lemma_chunks_extend(
    d: Seq<u8>,
    offs: Seq<nat>,
    per: Seq<nat>,
    sizes: Seq<nat>,
    ls: nat,
    c: nat,
    idx: nat,
    out: Seq<u8>,
)
    ensures
        chunks_from(d, offs, per, sizes, ls, c, idx, out) matches Ok((o, k)) ==> out.len() <= o.len()
            && o.take(out.len() as int) == out && idx <= k,
    decreases offs.len() - c, 4294967296int,
{
    if !(c >= offs.len() || c >= per.len() || per[c as int] > 4294967295) {
        lemma_samples_extend(d, offs, per, sizes, ls, c, 0, offs[c as int] as int, idx, out);
    } else {
        assert(out.take(out.len() as int) =~= out);
    }
}

proof fn lemma_samples_extend(
    d: Seq<u8>,
    offs: Seq<nat>,
    per: Seq<nat>,
    sizes: Seq<nat>,
    ls: nat,
    c: nat,
    j: nat,
    pos: int,
    idx: nat,
    out: Seq<u8>,
)
    ensures
        samples_from(d, offs, per, sizes, ls, c, j, pos, idx, out) matches Ok((o, k)) ==> out.len()
            <= o.len() && o.take(out.len() as int) == out && idx <= k,
    decreases offs.len() - c, per[c as int] - j,
{
    if c >= offs.len() || c >= per.len() || per[c as int] > 4294967295 {
        assert(out.take(out.len() as int) =~= out);
    } else if j >= per[c as int] || idx >= sizes.len() {
        lemma_chunks_extend(d, offs, per, sizes, ls, c + 1, idx, out);
        assert(samples_from(d, offs, per, sizes, ls, c, j, pos, idx, out) == chunks_from(d, offs, per, sizes, ls, c + 1, idx, out));
    } else {
        let size = sizes[idx as int];
        if !(size == 0 || pos + size > d.len()) {
            let (app, st) = conv_from(d.subrange(pos, pos + size), 0, ls);
            if st != 1 && st != 2 && out.len() + app.len() <= out_limit() {
                let next = samples_from(d, offs, per, sizes, ls, c, j + 1, pos + size, idx + 1, out + app);
                lemma_samples_extend(d, offs, per, sizes, ls, c, j + 1, pos + size, idx + 1, out + app);
                assert(samples_from(d, offs, per, sizes, ls, c, j, pos, idx, out) == next);
                if let Ok((o, k)) = next {
                    assert(o.take(out.len() as int) =~= (out + app).take(out.len() as int));
                    assert((out + app).take(out.len() as int) =~= out);
                }
            }
        }
    }
}

/// The stream extracted from a track begins with its parameter sets (each
/// after a start code) and holds at least one sample.
pub proof fn lemma_extract_begins_with_parameter_sets(d: Seq<u8>, t: Mp4BoxNode, ls: nat, prefix: Seq<u8>)
    ensures
        extract_tables(d, t, ls, prefix) matches Ok((o, k)) ==> prefix.len() <= o.len() && o.take(
            prefix.len() as int,
        ) == prefix && k >= 1,
{
    let ch = t.children@;
    if first_box(ch, "stsz"@) is Some && first_box(ch, "stsc"@) is Some && offset_table(t) is Some {
        let stsz = first_box(ch, "stsz"@)->0;
        let stsc = first_box(ch, "stsc"@)->0;
        let stco = offset_table(t)->0;
        if let (Some(zc), Some(oc), Some(cc)) = (node_content(d, stsz), node_content(d, stco), node_content(d, stsc)) {
            if let (Ok(sizes), Ok(offs), Ok(es)) = (sizes_of(zc), offsets_of(oc, stco.btype@ == "co64"@), stsc_of(cc)) {
                lemma_chunks_extend(d, offs, per_chunk(es, offs.len()), sizes, ls, 0, 0, prefix);
            }
        }
    }
}

proof fn lemma_heads_tile(d: Seq<u8>, pos: int, end: int, count: nat)
    ensures
        ({
            let hs = box_heads(d, pos, end, count);
            &&& forall|i: int|
                0 <= i < hs.len() ==> pos <= (#[trigger] hs[i]).pos && hs[i].pos + hs[i].size <= end
                    && hs[i].size >= 8
            &&& hs.len() > 0 ==> hs[0].pos == pos
            &&& forall|i: int| 0 < i < hs.len() ==> (#[trigger] hs[i]).pos == hs[i - 1].pos + hs[i - 1].size
        }),
    decreases end - pos,
{
    if count < 512 {
        if let Some(h) = box_head(d, pos, end) {
            lemma_heads_tile(d, pos + h.size, end, count + 1);
            let rest = box_heads(d, pos + h.size, end, count + 1);
            let hs = box_heads(d, pos, end, count);
            assert(hs == seq![h] + rest);
            assert forall|i: int| 0 < i < hs.len() implies (#[trigger] hs[i]).pos == hs[i - 1].pos + hs[i - 1].size by {
                if i > 1 {
                    assert(hs[i] == rest[i - 1] && hs[i - 1] == rest[i - 2]);
                } else {
                    assert(hs[1] == rest[0]);
                }
            }
            assert forall|i: int| 0 <= i < hs.len() implies pos <= (#[trigger] hs[i]).pos && hs[i].pos + hs[i].size <= end
                && hs[i].size >= 8 by {
                if i > 0 {
                    assert(hs[i] == rest[i - 1]);
                }
            }
        }
    }
}

/// The boxes read from `start` to `end` tile a prefix of that range: the
/// first begins at `start`, each begins where the one before ends, each is
/// at least a header long, and none passes `end`.
pub proof fn lemma_boxes_tile(ns: Seq<Mp4BoxNode>, d: Seq<u8>, start: int, end: int, depth: nat)
    requires
        nodes_are(ns, d, start, end, depth),
    ensures
        forall|i: int|
            0 <= i < ns.len() ==> start <= (#[trigger] ns[i]).offset && ns[i].offset + ns[i].size <= end
                && ns[i].size >= 8,
        ns.len() > 0 ==> ns[0].offset == start,
        forall|i: int| 0 < i < ns.len() ==> (#[trigger] ns[i]).offset == ns[i - 1].offset + ns[i - 1].size,
{
    let hs = box_heads(d, start, end, 0);
    lemma_heads_tile(d, start, end, 0);
    assert forall|i: int| 0 <= i < ns.len() implies start <= (#[trigger] ns[i]).offset && ns[i].offset
        + ns[i].size <= end && ns[i].size >= 8 by {
        assert(node_is(ns[i], d, hs[i], depth));
        assert(start <= hs[i].pos);
    }
    if ns.len() > 0 {
        assert(node_is(ns[0], d, hs[0], depth));
    }
    assert forall|i: int| 0 < i < ns.len() implies (#[trigger] ns[i]).offset == ns[i - 1].offset
        + ns[i - 1].size by {
        assert(node_is(ns[i], d, hs[i], depth));
        assert(node_is(ns[i - 1], d, hs[i - 1], depth));
        assert(hs[i].pos == hs[i - 1].pos + hs[i - 1].size);
    }
}

/// Each head listed from `pos` is the head read at its own position.
proof fn lemma_heads_read(d: Seq<u8>, pos: int, end: int, count: nat)
    ensures
        forall|i: int|
            0 <= i < box_heads(d, pos, end, count).len() ==> box_head(
                d,
                (#[trigger] box_heads(d, pos, end, count)[i]).pos,
                end,
            ) == Some(box_heads(d, pos, end, count)[i]),
    decreases end - pos,
{
    if count < 512 {
        if let Some(h) = box_head(d, pos, end) {
            lemma_heads_read(d, pos + h.size, end, count + 1);
            let rest = box_heads(d, pos + h.size, end, count + 1);
            let hs = box_heads(d, pos, end, count);
            assert(hs == seq![h] + rest);
            assert forall|i: int| 0 <= i < hs.len() implies box_head(d, (#[trigger] hs[i]).pos, end) == Some(
                hs[i],
            ) by {
                if i > 0 {
                    assert(hs[i] == rest[i - 1]);
                }
            }
        }
    }
}

/// The content of box `n` lies in `d`: it runs from the end of its
/// header (16 bytes with a 64-bit size, else 8) to the end of the box.
pub open spec fn content_in(d: Seq<u8>, n: Mp4BoxNode) -> bool {
    let off = n.offset as int;
    let header = if be32_at(d, off) == 1 {
        16int
    } else {
        8int
    };
    &&& off + 4 <= d.len()
    &&& box_range(d, n) == Some((off + header, off + n.size))
}

/// Every box of `ns`, and of their children down `k` levels, has its
/// content in `d`.
pub open spec fn contents_in(ns: Seq<Mp4BoxNode>, d: Seq<u8>, k: nat) -> bool
    decreases k,
{
    k > 0 ==> forall|i: int|
        0 <= i < ns.len() ==> content_in(d, #[trigger] ns[i]) && contents_in(ns[i].children@, d, (k - 1) as nat)
}

/// `box_content` gives the content of every box that `parse_boxes` lists,
/// at any depth: the bytes from the end of its header to the end of the box.
pub proof fn lemma_boxes_content(ns: Seq<Mp4BoxNode>, d: Seq<u8>, start: int, end: int, depth: nat)
    requires
        nodes_are(ns, d, start, end, depth),
        end <= d.len(),
        depth <= 9,
    ensures
        contents_in(ns, d, (9 - depth) as nat),
    decreases 9 - depth,
{
    if depth < 9 {
        let hs = box_heads(d, start, end, 0);
        lemma_heads_read(d, start, end, 0);
        lemma_heads_tile(d, start, end, 0);
        assert forall|i: int| 0 <= i < ns.len() implies content_in(d, #[trigger] ns[i]) && contents_in(
            ns[i].children@,
            d,
            (9 - depth - 1) as nat,
        ) by {
            let h = hs[i];
            assert(node_is(ns[i], d, h, depth));
            assert(box_head(d, h.pos, end) == Some(h));
            let t = fourcc(d, h.pos + 4);
            let cs = h.pos + h.header;
            let ce = h.pos + h.size;
            if container(t) && depth < 8 && cs + child_skip(t) <= ce {
                lemma_boxes_content(ns[i].children@, d, cs + child_skip(t), ce, depth + 1);
            } else {
                assert(ns[i].children@.len() == 0);
            }
        }
    }
}

/// The summary line of a media header box gives the timescale that the
/// track information of its track reports; for a version-0 box it is the
/// big-endian 32-bit number at content offset 12, after the version and
/// flags and the creation and modification times.
pub proof fn lemma_mdhd_summary(d: Seq<u8>, s: int, e: int)
    requires
        0 <= s,
        s + 20 <= e <= d.len(),
    ensures
        box_info(d, s, e, "mdhd"@) == seq![num_seq("timescale "@, mdhd_times(Some(d.subrange(s, e))).0, ""@)],
        d[s] != 1 || e - s < 32 ==> box_info(d, s, e, "mdhd"@) == seq![
            num_seq(
                "timescale "@,
                (d[s + 12] * 16777216 + d[s + 13] * 65536 + d[s + 14] * 256 + d[s + 15]) as nat,
                ""@,
            ),
        ],
        d[s] == 1 && e - s >= 32 ==> box_info(d, s, e, "mdhd"@) == seq![
            num_seq(
                "timescale "@,
                (d[s + 20] * 16777216 + d[s + 21] * 65536 + d[s + 22] * 256 + d[s + 23]) as nat,
                ""@,
            ),
        ],
{
    reveal_strlit("mdhd");
    reveal_strlit("ftyp");
    reveal_strlit("mvhd");
    reveal_strlit("tkhd");
    assert("mdhd"@ != "ftyp"@ && "mdhd"@ != "mvhd"@ && "mdhd"@ != "tkhd"@) by {
        assert("mdhd"@[0] != "ftyp"@[0]);
        assert("mdhd"@[1] != "mvhd"@[1]);
        assert("mdhd"@[0] != "tkhd"@[0]);
    }
    let c = d.subrange(s, e);
    assert(c[0] == d[s]);
    assert(be32_at(c, 12) == be32_at(d, s + 12));
    if e - s >= 32 {
        assert(c[20] == d[s + 20] && c[21] == d[s + 21] && c[22] == d[s + 22] && c[23] == d[s + 23]);
        assert(be32_at(c, 20) == be32_at(d, s + 20));
    }
}

/// The summary lines of a movie header box: its timescale and duration,
/// big-endian numbers after the version and flags and the creation and
/// modification times (32-bit each in version 0, the times and duration
/// 64-bit in version 1).
pub proof fn lemma_mvhd_summary(d: Seq<u8>, s: int, e: int)
    requires
        0 <= s,
        s + 20 <= e <= d.len(),
    ensures
        d[s] != 1 || e - s < 32 ==> box_info(d, s, e, "mvhd"@) == seq![
            num_seq(
                "timescale "@,
                (d[s + 12] * 16777216 + d[s + 13] * 65536 + d[s + 14] * 256 + d[s + 15]) as nat,
                ""@,
            ),
            num_seq(
                "duration "@,
                (d[s + 16] * 16777216 + d[s + 17] * 65536 + d[s + 18] * 256 + d[s + 19]) as nat,
                ""@,
            ),
        ],
        d[s] == 1 && e - s >= 32 ==> box_info(d, s, e, "mvhd"@) == seq![
            num_seq(
                "timescale "@,
                (d[s + 20] * 16777216 + d[s + 21] * 65536 + d[s + 22] * 256 + d[s + 23]) as nat,
                ""@,
            ),
            num_seq(
                "duration "@,
                ((d[s + 24] * 16777216 + d[s + 25] * 65536 + d[s + 26] * 256 + d[s + 27]) * 4294967296 + d[s
                    + 28] * 16777216 + d[s + 29] * 65536 + d[s + 30] * 256 + d[s + 31]) as nat,
                ""@,
            ),
        ],
{
    reveal_strlit("mvhd");
    reveal_strlit("ftyp");
    assert("mvhd"@ != "ftyp"@) by {
        assert("mvhd"@[0] != "ftyp"@[0]);
    }
}

/// A 16.16 fixed-point size is shown as the nearest whole number, halves to
/// the even one.
pub proof fn lemma_round_fixed(v: nat)
    ensures
        round_fixed(v) * 65536 <= v + 32768,
        v <= round_fixed(v) * 65536 + 32768,
        (round_fixed(v) * 65536 == v + 32768 || v == round_fixed(v) * 65536 + 32768) ==> round_fixed(v) % 2 == 0,
{
    let q = v / 65536;
    let r = v % 65536;
    assert(v == q * 65536 + r && 0 <= r < 65536) by {
        vstd::arithmetic::div_mod::lemma_fundamental_div_mod(v as int, 65536);
    }
}

/// The first summary line of a track header box is its track id, the
/// big-endian 32-bit number after the version and flags and the creation
/// and modification times (32-bit in version 0, 64-bit in version 1).
pub proof fn lemma_tkhd_summary(d: Seq<u8>, s: int, e: int)
    requires
        0 <= s,
        s + 84 <= e <= d.len(),
    ensures
        box_info(d, s, e, "tkhd"@).len() >= 1,
        d[s] != 1 ==> box_info(d, s, e, "tkhd"@)[0] == num_seq(
            "track_id "@,
            (d[s + 12] * 16777216 + d[s + 13] * 65536 + d[s + 14] * 256 + d[s + 15]) as nat,
            ""@,
        ),
        d[s] == 1 ==> box_info(d, s, e, "tkhd"@)[0] == num_seq(
            "track_id "@,
            (d[s + 20] * 16777216 + d[s + 21] * 65536 + d[s + 22] * 256 + d[s + 23]) as nat,
            ""@,
        ),
{
    reveal_strlit("tkhd");
    reveal_strlit("ftyp");
    reveal_strlit("mvhd");
    assert("tkhd"@ != "ftyp"@ && "tkhd"@ != "mvhd"@) by {
        assert("tkhd"@[0] != "ftyp"@[0]);
        assert("tkhd"@[0] != "mvhd"@[0]);
    }
}

} // verus!
