//! Slice header parsing (I/P/B/SP/SI). Some fields depend on the SPS and
//! PPS in use; without them, or on a structure that is not supported, the
//! parse ends early and keeps what it read, with a warning.

use vstd::prelude::*;
use crate::h264::bitreader::{BitReader, rd_bits, rd_flag, rd_ue, rd_se, readable, reader_error, bits_val, nbits};
use crate::h264::common::{FieldGroup, FieldRow, bool_str, body_row, flag_text, rows, groups_view, row_of};
use crate::h264::pps::Pps;
use crate::h264::sps::{Sps, fld, read_flag_field, read_ue_field, titles, row_when};
use crate::text::{dec, dec_i, dec_chars, num_text, cat, num_seq, int_seq, dec_int, int_pair_seq};
use crate::mp4::lines_text;

verus! {

broadcast use crate::h264::bitreader::group_readers;

/// The slice-header values shown in summaries.
#[derive(Debug, Clone)]
pub struct SliceInfo {
    pub first_mb_in_slice: u32,
    pub slice_type: u32,
    pub slice_type_name: String,
    pub pic_parameter_set_id: u32,
    pub frame_num: Option<u32>,
    pub idr_pic_id: Option<u32>,
    pub pic_order_cnt_lsb: Option<u32>,
}

/// The parsed slice header: its values, field table and warnings.
#[derive(Debug, Clone)]
pub struct SliceParse {
    pub info: SliceInfo,
    pub groups: Vec<FieldGroup>,
    pub warnings: Vec<String>,
}

/// The numeric values of a slice header, as the spec describes them.
pub struct SliceVals {
    pub first_mb_in_slice: u32,
    pub slice_type: u32,
    pub pic_parameter_set_id: u32,
    pub frame_num: Option<u32>,
    pub idr_pic_id: Option<u32>,
    pub pic_order_cnt_lsb: Option<u32>,
}

/// The slice type without the "all slices of the picture" offset of 5.
pub open spec fn base_type(st: u32) -> u32 {
    if st < 5 {
        st
    } else {
        (st - 5) as u32
    }
}

/// The name of a slice type: its letter, and whether the type holds for
/// every slice of the picture (values 5..9) or for this slice only.
pub open spec fn slice_type_text(v: u32) -> Seq<char> {
    let n = if base_type(v) == 0 {
        "P"@
    } else if base_type(v) == 1 {
        "B"@
    } else if base_type(v) == 2 {
        "I"@
    } else if base_type(v) == 3 {
        "SP"@
    } else if base_type(v) == 4 {
        "SI"@
    } else {
        "?"@
    };
    dec_chars(v as nat) + " ("@ + n + (if v < 5 {
        " · 仅本切片)"@
    } else {
        " · 该图像全部切片)"@
    })
}

pub fn slice_type_name(v: u32) -> (r: String)
    ensures
        r@ == slice_type_text(v),
{
    let base = if v < 5 {
        v
    } else {
        v - 5
    };
    let n = match base {
        0 => "P",
        1 => "B",
        2 => "I",
        3 => "SP",
        4 => "SI",
        _ => "?",
    };
    let mut s = dec(v as u64);
    s.append(" (");
    s.append(n);
    if v < 5 {
        s.append(" · 仅本切片)");
    } else {
        s.append(" · 该图像全部切片)");
    }
    assert(s@ =~= slice_type_text(v));
    s
}

/// `x + 4` in 32-bit wrapping arithmetic.
pub open spec fn wrap_add4(x: u32) -> u32 {
    ((x as int + 4) % 0x1_0000_0000) as u32
}

fn wrapping_add4(x: u32) -> (r: u32)
    ensures
        r == wrap_add4(x),
{
    if x <= 0xFFFF_FFFB {
        x + 4
    } else {
        x - 0xFFFF_FFFC
    }
}

/// `first_mb_in_slice`, `slice_type` and `pic_parameter_set_id`.
pub open spec fn slice_start(d: Seq<u8>) -> (SliceVals, Option<int>) {
    let (first_mb, c) = rd_ue(d, Some(0));
    let (st, c) = rd_ue(d, c);
    let (pps_id, c) = rd_ue(d, c);
    (
        SliceVals {
            first_mb_in_slice: first_mb,
            slice_type: st,
            pic_parameter_set_id: pps_id,
            frame_num: None,
            idr_pic_id: None,
            pic_order_cnt_lsb: None,
        },
        c,
    )
}

/// Whether the PPS, when present, has the bottom-field POC flag.
pub open spec fn bottom_present(pps: Option<Pps>) -> bool {
    match pps {
        Some(p) => p.bottom_field_pic_order_in_frame_present_flag,
        None => false,
    }
}

/// `frame_num`, the field flags, `idr_pic_id` and the picture-order-count
/// fields, which need the SPS.
pub open spec fn slice_pic(
    d: Seq<u8>,
    c: Option<int>,
    v: SliceVals,
    sps: Sps,
    pps: Option<Pps>,
    is_idr: bool,
) -> (SliceVals, bool, Option<int>) {
    let (frame_num, c) = rd_bits(d, c, wrap_add4(sps.log2_max_frame_num_minus4) as nat);
    let (field_pic, c) = if !sps.frame_mbs_only_flag {
        rd_flag(d, c)
    } else {
        (false, c)
    };
    let c = if !sps.frame_mbs_only_flag && field_pic {
        rd_bits(d, c, 1).1
    } else {
        c
    };
    let (idr, c) = if is_idr {
        rd_ue(d, c)
    } else {
        (0u32, c)
    };
    let lsb_bits = wrap_add4(
        match sps.log2_max_pic_order_cnt_lsb_minus4 {
            Some(l) => l,
            None => 0,
        },
    );
    let (poc, c) = if sps.pic_order_cnt_type == 0 {
        rd_bits(d, c, lsb_bits as nat)
    } else {
        (0u32, c)
    };
    let c = if sps.pic_order_cnt_type == 0 {
        if bottom_present(pps) && !field_pic {
            rd_se(d, c).1
        } else {
            c
        }
    } else if sps.pic_order_cnt_type == 1 {
        let always_zero = match sps.delta_pic_order_always_zero_flag {
            Some(z) => z,
            None => false,
        };
        if !always_zero {
            let c = rd_se(d, c).1;
            if bottom_present(pps) && !field_pic {
                rd_se(d, c).1
            } else {
                c
            }
        } else {
            c
        }
    } else {
        c
    };
    (
        SliceVals {
            frame_num: Some(frame_num),
            idr_pic_id: if is_idr {
                Some(idr)
            } else {
                None
            },
            pic_order_cnt_lsb: if sps.pic_order_cnt_type == 0 {
                Some(poc)
            } else {
                None
            },
            ..v
        },
        field_pic,
        c,
    )
}

/// In a frame-coded slice whose SPS has POC type 0, the header from bit
/// `p` holds `frame_num` in `log2_max_frame_num_minus4 + 4` bits, then for
/// an IDR picture `idr_pic_id`, and then `pic_order_cnt_lsb` in
/// `log2_max_pic_order_cnt_lsb_minus4 + 4` bits (whatever the width of
/// `frame_num`); without a bottom-field POC delta, the picture part ends
/// there, and its last row is that of `pic_order_cnt_lsb`.
pub proof fn lemma_pic_order_lsb(d: Seq<u8>, p: int, v: SliceVals, sps: Sps, pps: Option<Pps>, is_idr: bool)
    requires
        sps.pic_order_cnt_type == 0,
        sps.frame_mbs_only_flag,
        sps.log2_max_pic_order_cnt_lsb_minus4 is Some,
        sps.log2_max_pic_order_cnt_lsb_minus4->0 + 4 <= 32,
        sps.log2_max_frame_num_minus4 + 4 <= 32,
        !bottom_present(pps),
        0 <= p,
        p + sps.log2_max_frame_num_minus4 + 4 <= nbits(d),
        ({
            let q = p + sps.log2_max_frame_num_minus4 + 4;
            let q2 = if is_idr {
                rd_ue(d, Some(q)).1
            } else {
                Some(q)
            };
            q2 matches Some(x) && x + sps.log2_max_pic_order_cnt_lsb_minus4->0 + 4 <= nbits(d)
        }),
    ensures
        ({
            let fw: nat = (sps.log2_max_frame_num_minus4 + 4) as nat;
            let lw: nat = (sps.log2_max_pic_order_cnt_lsb_minus4->0 + 4) as nat;
            let q: int = if is_idr {
                rd_ue(d, Some(p + fw)).1->0
            } else {
                p + fw
            };
            let r = slice_pic(d, Some(p), v, sps, pps, is_idr);
            let rows = pic_rows(d, Some(p), sps, pps, is_idr);
            &&& r.0.frame_num == Some(bits_val(d, p, fw) as u32)
            &&& r.0.pic_order_cnt_lsb == Some(bits_val(d, q, lw) as u32)
            &&& r.2 == Some(q + lw)
            &&& rows.1 == Some(q + lw)
            &&& rows.0.1.len() > 0
            &&& rows.0.1.last().0 == "pic_order_cnt_lsb"@
            &&& rows.0.1.last().1 == dec_chars(bits_val(d, q, lw))
        }),
{
    reveal(pic_rows);
    reveal(rd_bits);
    let fw: nat = (sps.log2_max_frame_num_minus4 + 4) as nat;
    let lw: nat = (sps.log2_max_pic_order_cnt_lsb_minus4->0 + 4) as nat;
    let q: int = if is_idr {
        rd_ue(d, Some(p + fw)).1->0
    } else {
        p + fw
    };
    crate::h264::bitreader::lemma_rd_ue_forward(d, Some(p + fw));
    crate::h264::bitreader::lemma_bits_val_bound(d, q, lw);
    vstd::arithmetic::power2::lemma2_to64();
    if lw < 32 {
        vstd::arithmetic::power2::lemma_pow2_strictly_increases(lw, 32);
    }
    let poc = bits_val(d, q, lw);
    assert((poc as u32) as nat == poc);
    assert(wrap_add4(sps.log2_max_frame_num_minus4) as nat == fw);
    assert(wrap_add4(sps.log2_max_pic_order_cnt_lsb_minus4->0) as nat == lw);
    assert(rd_bits(d, Some(p), fw) == (bits_val(d, p, fw) as u32, Some(p + fw)));
    assert(rd_bits(d, Some(q), lw) == (poc as u32, Some(q + lw)));
    let row = body_row("pic_order_cnt_lsb"@, dec_chars(poc), q, q + lw, "显示序号低位（B 帧排序依据）"@);
    assert(row_when(Some(q + lw), row) == seq![row]);
    let rows = pic_rows(d, Some(p), sps, pps, is_idr);
    let e: Seq<FieldRow> = seq![];
    if is_idr {
        let (idr, c4) = rd_ue(d, Some(p + fw));
        let ri = row_when(c4, body_row("idr_pic_id"@, dec_chars(idr as nat), p + fw, q, "IDR 图像编号（连续 IDR 递增区分）"@));
        assert(rows.0.1 =~= e + (e + e + ri + seq![row]));
    } else {
        assert(rows.0.1 =~= e + (e + e + e + seq![row]));
    }
}

/// A `ref_pic_list_modification` loop with `guard` entries read: pairs of
/// `modification_of_pic_nums_idc` and a number until the idc 3, at most 33
/// pairs.
pub open spec fn rplm_loop(d: Seq<u8>, c: Option<int>, guard: nat) -> Option<int>
    decreases 33 - guard,
{
    let (idc, c) = rd_ue(d, c);
    if c is None {
        None
    } else if idc == 3 {
        c
    } else {
        let c = rd_ue(d, c).1;
        if guard + 1 > 32 || c is None {
            c
        } else {
            rplm_loop(d, c, guard + 1)
        }
    }
}

/// The default number of active references in each list, from the PPS.
pub open spec fn default_refs(pps: Option<Pps>) -> (int, int) {
    match pps {
        Some(p) => (
            p.num_ref_idx_l0_default_active_minus1 + 1,
            p.num_ref_idx_l1_default_active_minus1 + 1,
        ),
        None => (1, 1),
    }
}

/// `redundant_pic_cnt`, `direct_spatial_mv_pred_flag`, the override of the
/// number of active references, and the reference list modifications;
/// gives the numbers of active references.
pub open spec fn slice_refs(d: Seq<u8>, c: Option<int>, st: u32, pps: Option<Pps>) -> (
    int,
    int,
    Option<int>,
) {
    let redundant = match pps {
        Some(p) => p.redundant_pic_cnt_present_flag,
        None => false,
    };
    let c = if redundant {
        rd_ue(d, c).1
    } else {
        c
    };
    let b = base_type(st);
    let c = if b == 1 {
        rd_bits(d, c, 1).1
    } else {
        c
    };
    let (l0, l1) = default_refs(pps);
    let (ov, c) = rd_flag(d, c);
    let (n0, c) = if ov {
        rd_ue(d, c)
    } else {
        (0u32, c)
    };
    let (n1, c) = if ov && b == 1 {
        rd_ue(d, c)
    } else {
        (0u32, c)
    };
    let num_l0 = if ov {
        n0 + 1
    } else {
        l0
    };
    let num_l1 = if ov && b == 1 {
        n1 + 1
    } else {
        l1
    };
    (num_l0, num_l1, refs_mod_cursor(d, c, b))
}

/// The cursor after the reference list modifications read from `c`, for
/// a slice of base type `b`.
pub open spec fn refs_mod_cursor(d: Seq<u8>, c: Option<int>, b: u32) -> Option<int> {
    let c = if b != 2 && b != 4 {
        let (f, c) = rd_flag(d, c);
        if f {
            rplm_loop(d, c, 0)
        } else {
            c
        }
    } else {
        c
    };
    if b == 1 {
        let (f, c) = rd_flag(d, c);
        if f {
            rplm_loop(d, c, 0)
        } else {
            c
        }
    } else {
        c
    }
}

/// Entries `i..n` of a prediction weight table.
pub open spec fn pwt_entries(d: Seq<u8>, c: Option<int>, i: nat, n: nat, chroma: bool) -> Option<
    int,
>
    decreases n - i,
{
    if i >= n {
        c
    } else {
        let (lw, c) = rd_flag(d, c);
        let c = if lw {
            rd_se(d, rd_se(d, c).1).1
        } else {
            c
        };
        let c = if chroma {
            let (cw, c) = rd_flag(d, c);
            if cw {
                rd_se(d, rd_se(d, rd_se(d, rd_se(d, c).1).1).1).1
            } else {
                c
            }
        } else {
            c
        };
        pwt_entries(d, c, i + 1, n, chroma)
    }
}

/// A prediction weight table for `n` references; more than 32 is refused.
pub open spec fn pwt(d: Seq<u8>, c: Option<int>, n: int, chroma: bool) -> Option<int> {
    if n > 32 {
        None
    } else {
        let c = rd_ue(d, c).1;
        let c = if chroma {
            rd_ue(d, c).1
        } else {
            c
        };
        pwt_entries(d, c, 0, n as nat, chroma)
    }
}

/// The prediction weight tables: list 0 for weighted P/SP slices, both
/// lists for explicitly weighted B slices.
pub open spec fn slice_weights(
    d: Seq<u8>,
    c: Option<int>,
    st: u32,
    sps: Sps,
    pps: Option<Pps>,
    num_l0: int,
    num_l1: int,
) -> Option<int> {
    let b = base_type(st);
    let (wp, wb) = match pps {
        Some(p) => (p.weighted_pred_flag, p.weighted_bipred_idc),
        None => (false, 0u32),
    };
    let chroma = sps.chroma_format_idc != 0;
    if (b == 0 || b == 3) && wp {
        pwt(d, c, num_l0, chroma)
    } else if b == 1 && wb == 1 {
        pwt(d, pwt(d, c, num_l0, chroma), num_l1, chroma)
    } else {
        c
    }
}

/// A `memory_management_control_operation` loop with `guard` operations
/// read: each operation and its parameters (two for 3, none for 5) until
/// the operation 0, at most 65; an operation above 6 is refused.
pub open spec fn mmco_loop(d: Seq<u8>, c: Option<int>, guard: nat) -> Option<int>
    decreases 65 - guard,
{
    let (op, c) = rd_ue(d, c);
    if c is None {
        None
    } else if op == 0 {
        c
    } else if op > 6 {
        None
    } else {
        let c = if op == 1 || op == 2 || op == 6 || op == 4 {
            rd_ue(d, c).1
        } else if op == 3 {
            rd_ue(d, rd_ue(d, c).1).1
        } else {
            c
        };
        if guard + 1 > 64 || c is None {
            c
        } else {
            mmco_loop(d, c, guard + 1)
        }
    }
}

/// `dec_ref_pic_marking` of a reference picture.
pub open spec fn slice_marking(d: Seq<u8>, c: Option<int>, nal_ref_idc: u8, is_idr: bool) -> Option<
    int,
> {
    if nal_ref_idc == 0 {
        c
    } else if is_idr {
        rd_bits(d, rd_bits(d, c, 1).1, 1).1
    } else {
        let (adaptive, c) = rd_flag(d, c);
        if adaptive {
            mmco_loop(d, c, 0)
        } else {
            c
        }
    }
}

/// `cabac_init_idc`, the quantiser deltas and the deblocking fields.
pub open spec fn slice_tail(d: Seq<u8>, c: Option<int>, st: u32, pps: Option<Pps>) -> Option<int> {
    let b = base_type(st);
    let (entropy, deblock) = match pps {
        Some(p) => (p.entropy_coding_mode_flag, p.deblocking_filter_control_present_flag),
        None => (false, false),
    };
    let c = if entropy && b != 2 && b != 4 {
        rd_ue(d, c).1
    } else {
        c
    };
    let c = rd_se(d, c).1;
    let c = if b == 3 || b == 4 {
        rd_se(d, c).1
    } else {
        c
    };
    if deblock {
        let (idc, c) = rd_ue(d, c);
        if idc != 1 {
            rd_se(d, rd_se(d, c).1).1
        } else {
            c
        }
    } else {
        c
    }
}

/// The values of a slice header, or `None` when it does not fit the data
/// or is refused. Without an SPS the parse ends after
/// `pic_parameter_set_id` (and the colour plane), with no error.
pub open spec fn slice_result(
    d: Seq<u8>,
    nal_ref_idc: u8,
    is_idr: bool,
    sps: Option<Sps>,
    pps: Option<Pps>,
) -> Option<SliceVals> {
    let v = slice_start(d).0;
    let c = start_cursor(d, sps);
    if c is None {
        None
    } else {
        match sps {
            None => Some(v),
            Some(s) => rest_result(d, c, v, nal_ref_idc, is_idr, s, pps),
        }
    }
}

/// The cursor after the start of a slice header: `first_mb_in_slice`,
/// `slice_type`, `pic_parameter_set_id` and, for separate colour planes,
/// `colour_plane_id`.
pub open spec fn start_cursor(d: Seq<u8>, sps: Option<Sps>) -> Option<int> {
    let c = slice_start(d).1;
    match sps {
        Some(s) => if s.separate_colour_plane_flag {
            rd_bits(d, c, 2).1
        } else {
            c
        },
        None => c,
    }
}

/// The values of a slice header whose start `v` is read, read on from `c`
/// with its SPS `s`, or `None` when it does not fit the data or is
/// refused.
pub open spec fn rest_result(
    d: Seq<u8>,
    c: Option<int>,
    v: SliceVals,
    nal_ref_idc: u8,
    is_idr: bool,
    s: Sps,
    pps: Option<Pps>,
) -> Option<SliceVals> {
    let (v, field_pic, c) = slice_pic(d, c, v, s, pps, is_idr);
    let (n0, n1, c) = slice_refs(d, c, v.slice_type, pps);
    let c = slice_weights(d, c, v.slice_type, s, pps, n0, n1);
    let c = slice_marking(d, c, nal_ref_idc, is_idr);
    let c = slice_tail(d, c, v.slice_type, pps);
    if c is Some {
        Some(v)
    } else {
        None
    }
}

/// `info` holds the values `v`, with the name of its slice type.
pub open spec fn info_is(info: SliceInfo, v: SliceVals) -> bool {
    &&& info.first_mb_in_slice == v.first_mb_in_slice
    &&& info.slice_type == v.slice_type
    &&& info.slice_type_name@ == slice_type_text(v.slice_type)
    &&& info.pic_parameter_set_id == v.pic_parameter_set_id
    &&& info.frame_num == v.frame_num
    &&& info.idr_pic_id == v.idr_pic_id
    &&& info.pic_order_cnt_lsb == v.pic_order_cnt_lsb
}

/// `info` holds no values: zeros, no name, nothing optional.
pub open spec fn info_empty(info: SliceInfo) -> bool {
    &&& info.first_mb_in_slice == 0
    &&& info.slice_type == 0
    &&& info.slice_type_name@.len() == 0
    &&& info.pic_parameter_set_id == 0
    &&& info.frame_num is None
    &&& info.idr_pic_id is None
    &&& info.pic_order_cnt_lsb is None
}

/// The titles of the field groups of a slice header.
pub open spec fn slice_titles() -> Seq<Seq<char>> {
    seq!["切片头 · 基础"@, "切片头 · 图像序号"@, "切片头 · 参考与加权"@, "切片头 · 滤波与量化"@]
}

/// What a slice-header parse lists: the rows of its four groups, then its
/// warnings.
pub type SliceOut = (Seq<FieldRow>, Seq<FieldRow>, Seq<FieldRow>, Seq<FieldRow>, Seq<Seq<char>>);

/// Nothing listed.
pub open spec fn out_empty() -> SliceOut {
    (seq![], seq![], seq![], seq![], seq![])
}

/// `a`, then `b`.
pub open spec fn out_join(a: SliceOut, b: SliceOut) -> SliceOut {
    (a.0 + b.0, a.1 + b.1, a.2 + b.2, a.3 + b.3, a.4 + b.4)
}

/// Rows of one group, by its number.
pub open spec fn out_rows(k: nat, r: Seq<FieldRow>) -> SliceOut {
    if k == 1 {
        (r, seq![], seq![], seq![], seq![])
    } else if k == 2 {
        (seq![], r, seq![], seq![], seq![])
    } else if k == 3 {
        (seq![], seq![], r, seq![], seq![])
    } else {
        (seq![], seq![], seq![], r, seq![])
    }
}

/// Warnings alone.
pub open spec fn out_warn(w: Seq<Seq<char>>) -> SliceOut {
    (seq![], seq![], seq![], seq![], w)
}

/// The rows of `first_mb_in_slice`, `slice_type`, `pic_parameter_set_id`
/// and, for separate colour planes, `colour_plane_id`, as far as they are
/// read, and the cursor after them.
#[verifier::opaque]
pub open spec fn start_rows(d: Seq<u8>, sps: Option<Sps>) -> (Seq<FieldRow>, Option<int>) {
    let (first_mb, c1) = rd_ue(d, Some(0));
    let (st, c2) = rd_ue(d, c1);
    let (pid, c3) = rd_ue(d, c2);
    let r = row_when(c1, body_row("first_mb_in_slice"@, dec_chars(first_mb as nat), 0, c1->0, "0 表示新图像的第一个切片"@))
        + row_when(c2, body_row("slice_type"@, slice_type_text(st), c1->0, c2->0, ""@)) + row_when(
        c3,
        body_row("pic_parameter_set_id"@, dec_chars(pid as nat), c2->0, c3->0, ""@),
    );
    match sps {
        Some(sp) => if sp.separate_colour_plane_flag {
            let (cp, c4) = rd_bits(d, c3, 2);
            (r + row_when(c4, body_row("colour_plane_id"@, dec_chars(cp as nat), c3->0, c4->0, ""@)), c4)
        } else {
            (r, c3)
        },
        None => (r, c3),
    }
}

/// The rows of the picture part of a slice header read from `c` (the
/// frame number in the first group, the others in the second), as far as
/// they are read, and the cursor after them.
#[verifier::opaque]
pub open spec fn pic_rows(d: Seq<u8>, c: Option<int>, sps: Sps, pps: Option<Pps>, is_idr: bool) -> (
    SliceOut,
    Option<int>,
) {
    let (fnum, c1) = rd_bits(d, c, wrap_add4(sps.log2_max_frame_num_minus4) as nat);
    let g1 = row_when(c1, body_row("frame_num"@, dec_chars(fnum as nat), c->0, c1->0, "按解码序计数的图像编号"@));
    let fo = sps.frame_mbs_only_flag;
    let (fp, c2) = if !fo {
        rd_flag(d, c1)
    } else {
        (false, c1)
    };
    let r_fp = if !fo {
        row_when(c2, body_row("field_pic_flag"@, flag_text(fp), c1->0, c2->0, ""@))
    } else {
        seq![]
    };
    let (bf, c3) = if !fo && fp {
        rd_flag(d, c2)
    } else {
        (false, c2)
    };
    let r_bf = if !fo && fp {
        row_when(c3, body_row("bottom_field_flag"@, flag_text(bf), c2->0, c3->0, ""@))
    } else {
        seq![]
    };
    let (idr, c4) = if is_idr {
        rd_ue(d, c3)
    } else {
        (0u32, c3)
    };
    let r_idr = if is_idr {
        row_when(c4, body_row("idr_pic_id"@, dec_chars(idr as nat), c3->0, c4->0, "IDR 图像编号（连续 IDR 递增区分）"@))
    } else {
        seq![]
    };
    let bottom = bottom_present(pps) && !fp;
    let (r_poc, ce) = if sps.pic_order_cnt_type == 0 {
        let lsb_bits = wrap_add4(
            match sps.log2_max_pic_order_cnt_lsb_minus4 {
                Some(l) => l,
                None => 0,
            },
        );
        let (poc, c5) = rd_bits(d, c4, lsb_bits as nat);
        let r5 = row_when(c5, body_row("pic_order_cnt_lsb"@, dec_chars(poc as nat), c4->0, c5->0, "显示序号低位（B 帧排序依据）"@));
        if bottom {
            let (dl, c6) = rd_se(d, c5);
            (r5 + row_when(c6, body_row("delta_pic_order_cnt_bottom"@, dec_int(dl as int), c5->0, c6->0, ""@)), c6)
        } else {
            (r5, c5)
        }
    } else if sps.pic_order_cnt_type == 1 {
        let always_zero = match sps.delta_pic_order_always_zero_flag {
            Some(z) => z,
            None => false,
        };
        if !always_zero {
            let (d0, c5) = rd_se(d, c4);
            let r5 = row_when(c5, body_row("delta_pic_order_cnt[0]"@, dec_int(d0 as int), c4->0, c5->0, ""@));
            if bottom {
                let (d1, c6) = rd_se(d, c5);
                (r5 + row_when(c6, body_row("delta_pic_order_cnt[1]"@, dec_int(d1 as int), c5->0, c6->0, ""@)), c6)
            } else {
                (r5, c5)
            }
        } else {
            (seq![], c4)
        }
    } else {
        (seq![], c4)
    };
    (out_join(out_rows(1, g1), out_rows(2, r_fp + r_bf + r_idr + r_poc)), ce)
}

/// The warning of a reference list modification loop cut short.
pub open spec fn rplm_warning() -> Seq<char> {
    "ref_pic_list_modification 循环异常，停止解析"@
}

/// The rows and warnings of a reference list modification loop read from
/// `c` with `guard` entries read before, as far as it is read, and the
/// cursor after it. The loop of list 1 gives no warning when cut short.
pub open spec fn rplm_rows(d: Seq<u8>, c: Option<int>, guard: nat, l1: bool) -> (
    Seq<FieldRow>,
    Seq<Seq<char>>,
    Option<int>,
)
    decreases 33 - guard,
{
    let (idc, c1) = rd_ue(d, c);
    let r1 = row_when(
        c1,
        body_row(
            if l1 {
                "modification_of_pic_nums_idc_l1"@
            } else {
                "modification_of_pic_nums_idc"@
            },
            dec_chars(idc as nat),
            c->0,
            c1->0,
            ""@,
        ),
    );
    if c1 is None {
        (r1, seq![], None)
    } else if idc == 3 {
        (r1, seq![], c1)
    } else {
        let (v, c2) = rd_ue(d, c1);
        let r2 = row_when(
            c2,
            body_row(
                if l1 {
                    "abs_diff/long_term_pic_num_l1"@
                } else {
                    "abs_diff_pic_num_minus1 / long_term_pic_num"@
                },
                dec_chars(v as nat),
                c1->0,
                c2->0,
                ""@,
            ),
        );
        if c2 is None {
            (r1 + r2, seq![], None)
        } else if guard + 1 > 32 {
            (r1 + r2, if l1 {
                seq![]
            } else {
                seq![rplm_warning()]
            }, c2)
        } else {
            let (rr, ww, ce) = rplm_rows(d, c2, guard + 1, l1);
            (r1 + r2 + rr, ww, ce)
        }
    }
}

/// The rows of the first reference fields of a slice header read from `c`
/// (`redundant_pic_cnt` in the first group, the direct mode and the
/// numbers of active references in the third), as far as they are read,
/// and the cursor after them.
#[verifier::opaque]
pub open spec fn refs_head_rows(d: Seq<u8>, c: Option<int>, st: u32, pps: Option<Pps>) -> (SliceOut, Option<int>) {
    let redundant = match pps {
        Some(p) => p.redundant_pic_cnt_present_flag,
        None => false,
    };
    let (rc, c1) = if redundant {
        rd_ue(d, c)
    } else {
        (0u32, c)
    };
    let g1 = if redundant {
        row_when(c1, body_row("redundant_pic_cnt"@, dec_chars(rc as nat), c->0, c1->0, ""@))
    } else {
        seq![]
    };
    let b = base_type(st);
    let (sp, c2) = if b == 1 {
        rd_flag(d, c1)
    } else {
        (false, c1)
    };
    let r_sp = if b == 1 {
        row_when(c2, body_row("direct_spatial_mv_pred_flag"@, flag_text(sp), c1->0, c2->0, "B 帧直接模式预测方式"@))
    } else {
        seq![]
    };
    let (ov, c3) = rd_flag(d, c2);
    let r_ov = row_when(c3, body_row("num_ref_idx_active_override_flag"@, flag_text(ov), c2->0, c3->0, ""@));
    let (n0, c4) = if ov {
        rd_ue(d, c3)
    } else {
        (0u32, c3)
    };
    let r_n0 = if ov {
        row_when(c4, body_row("num_ref_idx_l0_active_minus1"@, dec_chars(n0 as nat), c3->0, c4->0, ""@))
    } else {
        seq![]
    };
    let (n1, c5) = if ov && b == 1 {
        rd_ue(d, c4)
    } else {
        (0u32, c4)
    };
    let r_n1 = if ov && b == 1 {
        row_when(c5, body_row("num_ref_idx_l1_active_minus1"@, dec_chars(n1 as nat), c4->0, c5->0, ""@))
    } else {
        seq![]
    };
    (out_join(out_rows(1, g1), out_rows(3, r_sp + r_ov + r_n0 + r_n1)), c5)
}

/// The rows and warnings of the reference list modifications of a slice
/// of base type `b` read from `c`, as far as they are read, and the
/// cursor after them.
#[verifier::opaque]
pub open spec fn refs_mod_rows(d: Seq<u8>, c: Option<int>, b: u32) -> (SliceOut, Option<int>) {
    let (r_m0, w0, c7) = if b != 2 && b != 4 {
        let (f, c6) = rd_flag(d, c);
        let rf = row_when(c6, body_row("ref_pic_list_modification_flag_l0"@, flag_text(f), c->0, c6->0, ""@));
        if f {
            let (rr, ww, ce) = rplm_rows(d, c6, 0, false);
            (rf + rr, ww, ce)
        } else {
            (rf, seq![], c6)
        }
    } else {
        (seq![], seq![], c)
    };
    let (r_m1, w1, c9) = if b == 1 {
        let (f, c8) = rd_flag(d, c7);
        let rf = row_when(c8, body_row("ref_pic_list_modification_flag_l1"@, flag_text(f), c7->0, c8->0, ""@));
        if f {
            let (rr, ww, ce) = rplm_rows(d, c8, 0, true);
            (rf + rr, ww, ce)
        } else {
            (rf, seq![], c8)
        }
    } else {
        (seq![], seq![], c7)
    };
    (out_join(out_rows(3, r_m0 + r_m1), out_warn(w0 + w1)), c9)
}

/// The rows and warnings of the reference part of a slice header read from
/// `c`, as far as they are read, and the cursor after them.
pub open spec fn refs_rows(d: Seq<u8>, c: Option<int>, st: u32, pps: Option<Pps>) -> (SliceOut, Option<int>) {
    let (h, c1) = refs_head_rows(d, c, st, pps);
    let (m, c2) = refs_mod_rows(d, c1, base_type(st));
    (out_join(h, m), c2)
}

/// The name prefix of the fields of prediction weight table `list`.
pub open spec fn pwt_prefix(list: Seq<char>) -> Seq<char> {
    "pred_weight_table["@ + list + "]"@
}

/// The rows of entries `i..n` of prediction weight table `list` read from
/// `c`, as far as they are read, and the cursor after them.
pub open spec fn pwt_entry_rows(d: Seq<u8>, c: Option<int>, i: nat, n: nat, chroma: bool, list: Seq<char>) -> (
    Seq<FieldRow>,
    Option<int>,
)
    decreases n - i,
{
    if i >= n {
        (seq![], c)
    } else {
        let pre = pwt_prefix(list);
        let (lw, c1) = rd_flag(d, c);
        let r1 = row_when(
            c1,
            body_row(pre + ".luma_weight_"@ + list + num_seq("_flag["@, i, "]"@), flag_text(lw), c->0, c1->0, ""@),
        );
        let (r2, c3) = if lw {
            let (dw, c2) = rd_se(d, c1);
            let (off, c3) = rd_se(d, c2);
            (
                row_when(
                    c3,
                    body_row(
                        pre + num_seq(".luma["@, i, "]"@),
                        int_seq("delta="@, dw as int, ", offset="@) + dec_int(off as int),
                        c1->0,
                        c3->0,
                        ""@,
                    ),
                ),
                c3,
            )
        } else {
            (seq![], c1)
        };
        let (r3, c8) = if chroma {
            let (cw, c4) = rd_flag(d, c3);
            let rf = row_when(c4, body_row(pre + num_seq(".chroma_flag["@, i, "]"@), flag_text(cw), c3->0, c4->0, ""@));
            if cw {
                let (dw, c5) = rd_se(d, c4);
                let (off, c6) = rd_se(d, c5);
                let (dw2, c7) = rd_se(d, c6);
                let (off2, c8) = rd_se(d, c7);
                (
                    rf + row_when(
                        c8,
                        body_row(
                            pre + num_seq(".chroma["@, i, "]"@),
                            int_seq("delta="@, dw as int, ","@) + dec_int(dw2 as int) + " offset="@ + dec_int(off as int)
                                + ","@ + dec_int(off2 as int),
                            c4->0,
                            c8->0,
                            ""@,
                        ),
                    ),
                    c8,
                )
            } else {
                (rf, c4)
            }
        } else {
            (seq![], c3)
        };
        let (rest, ce) = pwt_entry_rows(d, c8, i + 1, n, chroma, list);
        (r1 + r2 + r3 + rest, ce)
    }
}

/// The rows of prediction weight table `list` for `n` references read from
/// `c`, as far as they are read, and the cursor after them; more than 32
/// references are refused before any row.
pub open spec fn pwt_rows(d: Seq<u8>, c: Option<int>, n: int, chroma: bool, list: Seq<char>) -> (
    Seq<FieldRow>,
    Option<int>,
) {
    if n > 32 {
        (seq![], None)
    } else {
        let pre = pwt_prefix(list);
        let (ld, c1) = rd_ue(d, c);
        let r1 = row_when(c1, body_row(pre + ".luma_log2_weight_denom"@, dec_chars(ld as nat), c->0, c1->0, ""@));
        let (cd, c2) = if chroma {
            rd_ue(d, c1)
        } else {
            (0u32, c1)
        };
        let r2 = if chroma {
            row_when(c2, body_row(pre + ".chroma_log2_weight_denom"@, dec_chars(cd as nat), c1->0, c2->0, ""@))
        } else {
            seq![]
        };
        let (er, ce) = pwt_entry_rows(d, c2, 0, n as nat, chroma, list);
        (r1 + r2 + er, ce)
    }
}

/// The rows of the prediction weight tables of a slice header read from
/// `c`, as far as they are read, and the cursor after them.
#[verifier::opaque]
pub open spec fn weights_rows(
    d: Seq<u8>,
    c: Option<int>,
    st: u32,
    sps: Sps,
    pps: Option<Pps>,
    num_l0: int,
    num_l1: int,
) -> (Seq<FieldRow>, Option<int>) {
    let b = base_type(st);
    let (wp, wb) = match pps {
        Some(p) => (p.weighted_pred_flag, p.weighted_bipred_idc),
        None => (false, 0u32),
    };
    let chroma = sps.chroma_format_idc != 0;
    if (b == 0 || b == 3) && wp {
        pwt_rows(d, c, num_l0, chroma, "l0"@)
    } else if b == 1 && wb == 1 {
        let (r0, c0) = pwt_rows(d, c, num_l0, chroma, "l0"@);
        let (r1, c1) = pwt_rows(d, c0, num_l1, chroma, "l1"@);
        (r0 + r1, c1)
    } else {
        (seq![], c)
    }
}

/// The warning of a memory management operation above 6.
pub open spec fn mmco_warning(op: u32) -> Seq<char> {
    num_seq("memory_management_control_operation="@, op as nat, " 非法（>6），停止解析"@)
}

/// The rows and warnings of a memory management loop read from `c` with
/// `guard` operations read before, as far as it is read, and the cursor
/// after it.
pub open spec fn mmco_rows(d: Seq<u8>, c: Option<int>, guard: nat) -> (Seq<FieldRow>, Seq<Seq<char>>, Option<int>)
    decreases 65 - guard,
{
    let (op, c1) = rd_ue(d, c);
    let r1 = row_when(c1, body_row("memory_management_control_operation"@, dec_chars(op as nat), c->0, c1->0, ""@));
    if c1 is None {
        (r1, seq![], None)
    } else if op == 0 {
        (r1, seq![], c1)
    } else if op > 6 {
        (r1, seq![mmco_warning(op)], None)
    } else {
        let (rp, c2) = if op == 1 {
            let (v, c2) = rd_ue(d, c1);
            (row_when(c2, body_row("difference_of_pic_nums_minus1"@, dec_chars(v as nat), c1->0, c2->0, ""@)), c2)
        } else if op == 2 || op == 6 {
            let (v, c2) = rd_ue(d, c1);
            (row_when(c2, body_row("long_term_frame_idx"@, dec_chars(v as nat), c1->0, c2->0, ""@)), c2)
        } else if op == 3 {
            let (v1, ca) = rd_ue(d, c1);
            let (v2, c2) = rd_ue(d, ca);
            (
                row_when(c2, body_row("difference_of_pic_nums_minus1"@, dec_chars(v1 as nat), c1->0, c2->0, ""@))
                    + row_when(c2, body_row("long_term_frame_idx"@, dec_chars(v2 as nat), c2->0, c2->0, ""@)),
                c2,
            )
        } else if op == 4 {
            let (v, c2) = rd_ue(d, c1);
            (row_when(c2, body_row("max_long_term_frame_idx_plus1"@, dec_chars(v as nat), c1->0, c2->0, ""@)), c2)
        } else {
            (seq![], c1)
        };
        if c2 is None {
            (r1 + rp, seq![], None)
        } else if guard + 1 > 64 {
            (r1 + rp, seq!["dec_ref_pic_marking 循环异常"@], c2)
        } else {
            let (rr, ww, ce) = mmco_rows(d, c2, guard + 1);
            (r1 + rp + rr, ww, ce)
        }
    }
}

/// The rows and warnings of `dec_ref_pic_marking` read from `c`, as far as
/// it is read, and the cursor after it.
#[verifier::opaque]
pub open spec fn marking_rows(d: Seq<u8>, c: Option<int>, nal_ref_idc: u8, is_idr: bool) -> (
    Seq<FieldRow>,
    Seq<Seq<char>>,
    Option<int>,
) {
    if nal_ref_idc == 0 {
        (seq![], seq![], c)
    } else if is_idr {
        let (v1, c1) = rd_flag(d, c);
        let (v2, c2) = rd_flag(d, c1);
        (
            row_when(c2, body_row("no_output_of_prior_pics_flag"@, flag_text(v1), c->0, c2->0, ""@))
                + row_when(c2, body_row("long_term_reference_flag"@, flag_text(v2), c2->0, c2->0, ""@)),
            seq![],
            c2,
        )
    } else {
        let (ad, c1) = rd_flag(d, c);
        let r1 = row_when(c1, body_row("adaptive_ref_pic_marking_mode_flag"@, flag_text(ad), c->0, c1->0, "1=显式管理参考帧"@));
        if ad {
            let (rr, ww, ce) = mmco_rows(d, c1, 0);
            (r1 + rr, ww, ce)
        } else {
            (r1, seq![], c1)
        }
    }
}

/// The rows of the quantiser and deblocking part of a slice header read
/// from `c`, as far as they are read, and the cursor after them.
#[verifier::opaque]
pub open spec fn tail_rows(d: Seq<u8>, c: Option<int>, st: u32, pps: Option<Pps>) -> (Seq<FieldRow>, Option<int>) {
    let b = base_type(st);
    let (entropy, deblock) = match pps {
        Some(p) => (p.entropy_coding_mode_flag, p.deblocking_filter_control_present_flag),
        None => (false, false),
    };
    let cabac = entropy && b != 2 && b != 4;
    let (ci, c1) = if cabac {
        rd_ue(d, c)
    } else {
        (0u32, c)
    };
    let r1 = if cabac {
        row_when(c1, body_row("cabac_init_idc"@, dec_chars(ci as nat), c->0, c1->0, ""@))
    } else {
        seq![]
    };
    let (qp, c2) = rd_se(d, c1);
    let r2 = row_when(c2, body_row("slice_qp_delta"@, dec_int(qp as int), c1->0, c2->0, ""@));
    let sq = b == 3 || b == 4;
    let (qs, c3) = if sq {
        rd_se(d, c2)
    } else {
        (0i32, c2)
    };
    let r3 = if sq {
        row_when(c3, body_row("slice_qs_delta"@, dec_int(qs as int), c2->0, c3->0, ""@))
    } else {
        seq![]
    };
    if deblock {
        let (idc, c4) = rd_ue(d, c3);
        let r4 = row_when(c4, body_row("disable_deblocking_filter_idc"@, dec_chars(idc as nat), c3->0, c4->0, "0=启用滤波 1=禁用 2=自定义"@));
        if idc != 1 {
            let (al, c5) = rd_se(d, c4);
            let (be, c6) = rd_se(d, c5);
            (
                r1 + r2 + r3 + r4 + row_when(
                    c6,
                    body_row("slice_alpha_c0/beta_offset_div2"@, int_pair_seq(al as int, "/"@, be as int), c4->0, c6->0, ""@),
                ),
                c6,
            )
        } else {
            (r1 + r2 + r3 + r4, c4)
        }
    } else {
        (r1 + r2 + r3, c3)
    }
}

/// The warning of a slice header whose SPS is not known.
pub open spec fn no_sps_warning() -> Seq<char> {
    "上下文缺少 SPS，frame_num 及之后的字段未解析（可能 SPS 不在本 NALU 之前）"@
}

/// The warning of a slice header whose PPS has slice groups.
pub open spec fn fmo_slice_warning() -> Seq<char> {
    "多切片组(FMO)切片头未解析 slice_group_change_cycle"@
}

/// What a slice header lists of its picture and reference parts read from
/// `c`, as far as they are read, and the cursor after them.
#[verifier::opaque]
pub open spec fn rest_a_out(d: Seq<u8>, c: Option<int>, st: u32, sp: Sps, pps: Option<Pps>, is_idr: bool) -> (
    SliceOut,
    Option<int>,
) {
    let (po, c1) = pic_rows(d, c, sp, pps, is_idr);
    let (ro, c2) = refs_rows(d, c1, st, pps);
    (out_join(po, ro), c2)
}

/// What a slice header lists of its weight tables, reference marking and
/// quantiser part read from `c`, with `n0` and `n1` active references, as
/// far as they are read, and the cursor after them; with the warning of a
/// PPS with slice groups when they are read to their end.
#[verifier::opaque]
pub open spec fn rest_b_out(
    d: Seq<u8>,
    c: Option<int>,
    st: u32,
    nal_ref_idc: u8,
    is_idr: bool,
    sp: Sps,
    pps: Option<Pps>,
    n0: int,
    n1: int,
) -> (SliceOut, Option<int>) {
    let (wr, c3) = weights_rows(d, c, st, sp, pps, n0, n1);
    let (mr, mw, c4) = marking_rows(d, c3, nal_ref_idc, is_idr);
    let (tr, c5) = tail_rows(d, c4, st, pps);
    let fmo = match pps {
        Some(p) => p.num_slice_groups_minus1 > 0,
        None => false,
    };
    (
        out_join(
            out_join(out_rows(3, wr + mr), out_warn(mw)),
            out_join(out_rows(4, tr), out_warn(if c5 is Some && fmo {
                seq![fmo_slice_warning()]
            } else {
                seq![]
            })),
        ),
        c5,
    )
}

/// What the parse of a slice header lists from cursor `c` on, after its
/// start, when its SPS is known, as far as it is read, and the cursor
/// after it.
pub open spec fn slice_rest_out(
    d: Seq<u8>,
    c: Option<int>,
    st: u32,
    nal_ref_idc: u8,
    is_idr: bool,
    sp: Sps,
    pps: Option<Pps>,
) -> (SliceOut, Option<int>) {
    let (a, c2) = rest_a_out(d, c, st, sp, pps, is_idr);
    let (n0, n1, _c) = slice_refs(d, pic_rows(d, c, sp, pps, is_idr).1, st, pps);
    let (b, c5) = rest_b_out(d, c2, st, nal_ref_idc, is_idr, sp, pps, n0, n1);
    (out_join(a, b), c5)
}

/// What the parse of a slice header lists, as far as it is read, and the
/// cursor after it (`None` when it does not fit the data or is refused).
pub open spec fn slice_out(d: Seq<u8>, nal_ref_idc: u8, is_idr: bool, sps: Option<Sps>, pps: Option<Pps>) -> (
    SliceOut,
    Option<int>,
) {
    let (sr, c) = start_rows(d, sps);
    let st = slice_start(d).0.slice_type;
    match sps {
        None => (out_join(out_rows(1, sr), out_warn(if c is Some {
            seq![no_sps_warning()]
        } else {
            seq![]
        })), c),
        Some(sp) => {
            let (ro, ce) = slice_rest_out(d, c, st, nal_ref_idc, is_idr, sp, pps);
            (out_join(out_rows(1, sr), ro), ce)
        },
    }
}

/// `groups` and `warnings` are what the parse of slice header `d` shows:
/// the four groups with the rows read, then the warnings, and when the
/// parse fails, one more warning that says it was cut short.
pub open spec fn slice_shown(
    groups: Seq<FieldGroup>,
    warnings: Seq<String>,
    d: Seq<u8>,
    nal_ref_idc: u8,
    is_idr: bool,
    sps: Option<Sps>,
    pps: Option<Pps>,
) -> bool {
    let (o, c) = slice_out(d, nal_ref_idc, is_idr, sps, pps);
    &&& groups_view(groups) == seq![
        ("切片头 · 基础"@, None::<Seq<char>>, o.0),
        ("切片头 · 图像序号"@, None::<Seq<char>>, o.1),
        ("切片头 · 参考与加权"@, None::<Seq<char>>, o.2),
        ("切片头 · 滤波与量化"@, None::<Seq<char>>, o.3),
    ]
    &&& c is Some ==> lines_text(warnings) == o.4
    &&& c is None ==> exists|e: Seq<char>|
        lines_text(warnings) == o.4.push("解析中断："@ + e) && #[trigger] slice_error(d, e)
}

/// The message of more than 32 active reference indices.
pub open spec fn ref_count_text(n: nat) -> Seq<char> {
    num_seq("num_ref_idx_active="@, n, " 异常过大（>32），疑似码流损坏"@)
}

/// The message of an unknown memory management operation.
pub open spec fn mmco_text(op: nat) -> Seq<char> {
    num_seq("MMCO 操作码 "@, op, " 非法"@)
}

/// Whether `e` is a message that reading a slice header from `d` stops
/// with: a reader's, or one of a value out of range.
#[verifier::opaque]
pub open spec fn slice_error(d: Seq<u8>, e: Seq<char>) -> bool {
    ||| reader_error(d, e)
    ||| exists|n: nat| n > 32 && e == ref_count_text(n)
    ||| exists|op: nat| op > 6 && e == mmco_text(op)
}

/// The messages that reading a slice header stops with.
proof fn lemma_slice_errors(d: Seq<u8>)
    ensures
        forall|e: Seq<char>| reader_error(d, e) ==> #[trigger] slice_error(d, e),
        forall|n: nat| n > 32 ==> #[trigger] slice_error(d, ref_count_text(n)),
        forall|op: nat| op > 6 ==> #[trigger] slice_error(d, mmco_text(op)),
{
    reveal(slice_error);
    assert forall|n: nat| n > 32 implies #[trigger] slice_error(d, ref_count_text(n)) by {
        reveal(slice_error);
    }
    assert forall|op: nat| op > 6 implies #[trigger] slice_error(d, mmco_text(op)) by {
        reveal(slice_error);
    }
}

/// The four field groups and the warnings of a slice header parse.
struct Ctx {
    g1: FieldGroup,
    g2: FieldGroup,
    g3: FieldGroup,
    g4: FieldGroup,
    warnings: Vec<String>,
}

/// The titles of a context's groups, which have no notes.
spec fn ctx_titled(ctx: Ctx) -> bool {
    &&& ctx.g1.title@ == "切片头 · 基础"@
    &&& ctx.g2.title@ == "切片头 · 图像序号"@
    &&& ctx.g3.title@ == "切片头 · 参考与加权"@
    &&& ctx.g4.title@ == "切片头 · 滤波与量化"@
    &&& ctx.g1.note is None
    &&& ctx.g2.note is None
    &&& ctx.g3.note is None
    &&& ctx.g4.note is None
}

/// What a context lists.
spec fn ctx_out(ctx: Ctx) -> SliceOut {
    (rows(ctx.g1.fields@), rows(ctx.g2.fields@), rows(ctx.g3.fields@), rows(ctx.g4.fields@), lines_text(ctx.warnings@))
}

/// A context lists `o`.
spec fn ctx_is(ctx: Ctx, o: SliceOut) -> bool {
    &&& rows(ctx.g1.fields@) =~= o.0
    &&& rows(ctx.g2.fields@) =~= o.1
    &&& rows(ctx.g3.fields@) =~= o.2
    &&& rows(ctx.g4.fields@) =~= o.3
    &&& lines_text(ctx.warnings@) =~= o.4
}

impl Ctx {
    /// Ends a parse that failed: a warning, and no values.
    fn bail(self, e: String) -> (r: SliceParse)
        requires
            ctx_titled(self),
        ensures
            info_empty(r.info),
            titles(r.groups@) == slice_titles(),
            r.warnings@.len() == self.warnings@.len() + 1,
            r.groups@ == seq![self.g1, self.g2, self.g3, self.g4],
            lines_text(r.warnings@) == lines_text(self.warnings@).push("解析中断："@ + e@),
    {
        let mut s = self;
        let ghost w0 = lines_text(s.warnings@);
        s.warnings.push(cat("解析中断：", e.as_str()));
        assert(lines_text(s.warnings@) =~= w0.push("解析中断："@ + e@));
        s.finish(
            SliceInfo {
                first_mb_in_slice: 0,
                slice_type: 0,
                slice_type_name: String::new(),
                pic_parameter_set_id: 0,
                frame_num: None,
                idr_pic_id: None,
                pic_order_cnt_lsb: None,
            },
        )
    }

    /// Ends a parse with `info`.
    fn finish(self, info: SliceInfo) -> (r: SliceParse)
        requires
            ctx_titled(self),
        ensures
            r.info == info,
            titles(r.groups@) == slice_titles(),
            r.warnings == self.warnings,
            r.groups@ == seq![self.g1, self.g2, self.g3, self.g4],
    {
        let mut groups: Vec<FieldGroup> = Vec::new();
        groups.push(self.g1);
        groups.push(self.g2);
        groups.push(self.g3);
        groups.push(self.g4);
        proof {
            assert(titles(groups@) =~= slice_titles());
            assert(groups@ =~= seq![self.g1, self.g2, self.g3, self.g4]);
        }
        SliceParse { info, groups, warnings: self.warnings }
    }
}

#[verifier::rlimit(100)]
fn pic_exec(br: &mut BitReader, ctx: &mut Ctx, sps: Sps, pps: Option<Pps>, is_idr: bool) -> (r: Result<
    (u32, bool, Option<u32>, Option<u32>),
    String,
>)
    requires
        old(br).wf(),
        ctx_titled(*old(ctx)),
    ensures
        r is Err ==> slice_error(old(br).data(), r->Err_0@),
        final(br).wf(),
        final(br).data() == old(br).data(),
        ctx_titled(*final(ctx)),
        forall|v: SliceVals|
            {
                let (v2, fp, c) = #[trigger] slice_pic(
                    old(br).data(),
                    old(br).cur(),
                    v,
                    sps,
                    pps,
                    is_idr,
                );
                &&& (r is Ok <==> c is Some)
                &&& r is Ok ==> final(br).cur() == c && r->Ok_0 == (
                    v2.frame_num.unwrap(),
                    fp,
                    v2.idr_pic_id,
                    v2.pic_order_cnt_lsb,
                )
            },
        ctx_is(*final(ctx), out_join(ctx_out(*old(ctx)), pic_rows(old(br).data(), old(br).cur(), sps, pps, is_idr).0)),
        r is Ok <==> pic_rows(old(br).data(), old(br).cur(), sps, pps, is_idr).1 is Some,
        r is Ok ==> final(br).cur() == pic_rows(old(br).data(), old(br).cur(), sps, pps, is_idr).1,
{
    proof {
        lemma_slice_errors(old(br).data());
    }
    let ghost d = br.data();
    let ghost c0 = br.cur();
    let ghost o0 = ctx_out(*ctx);
    let ghost want = out_join(o0, pic_rows(d, c0, sps, pps, is_idr).0);
    proof {
        reveal(pic_rows);
    }
    let frame_num_bits = wrapping_add4(sps.log2_max_frame_num_minus4);
    let s = br.bit_pos();
    let frame_num = match br.read_bits(frame_num_bits) {
        Ok(v) => v,
        Err(e) => {
            assert(ctx_is(*ctx, want));
            return Err(e);
        },
    };
    fld(&mut ctx.g1, "frame_num", dec(frame_num as u64), s, br.bit_pos(), "按解码序计数的图像编号");
    let mut field_pic = false;
    if !sps.frame_mbs_only_flag {
        field_pic = match read_flag_field(br, &mut ctx.g2, "field_pic_flag", "") {
            Ok(v) => v,
            Err(e) => {
                assert(ctx_is(*ctx, want));
                return Err(e);
            },
        };
        if field_pic {
            match read_flag_field(br, &mut ctx.g2, "bottom_field_flag", "") {
                Ok(_) => {},
                Err(e) => {
                    assert(ctx_is(*ctx, want));
                    return Err(e);
                },
            }
        }
    }
    let mut idr: Option<u32> = None;
    if is_idr {
        let v = match read_ue_field(br, &mut ctx.g2, "idr_pic_id", "IDR 图像编号（连续 IDR 递增区分）") {
            Ok(v) => v,
            Err(e) => {
                assert(ctx_is(*ctx, want));
                return Err(e);
            },
        };
        idr = Some(v);
    }
    let bottom = match pps {
        Some(p) => p.bottom_field_pic_order_in_frame_present_flag,
        None => false,
    };
    let mut poc: Option<u32> = None;
    if sps.pic_order_cnt_type == 0 {
        let bits = wrapping_add4(
            match sps.log2_max_pic_order_cnt_lsb_minus4 {
                Some(l) => l,
                None => 0,
            },
        );
        let s = br.bit_pos();
        let poc_lsb = match br.read_bits(bits) {
            Ok(v) => v,
            Err(e) => {
                assert(ctx_is(*ctx, want));
                return Err(e);
            },
        };
        poc = Some(poc_lsb);
        fld(&mut ctx.g2, "pic_order_cnt_lsb", dec(poc_lsb as u64), s, br.bit_pos(), "显示序号低位（B 帧排序依据）");
        if bottom && !field_pic {
            let s = br.bit_pos();
            let delta = match br.read_se() {
                Ok(v) => v,
                Err(e) => {
                    assert(ctx_is(*ctx, want));
                    return Err(e);
                },
            };
            fld(&mut ctx.g2, "delta_pic_order_cnt_bottom", dec_i(delta as i64), s, br.bit_pos(), "");
        }
    } else if sps.pic_order_cnt_type == 1 {
        let always_zero = match sps.delta_pic_order_always_zero_flag {
            Some(z) => z,
            None => false,
        };
        if !always_zero {
            let s = br.bit_pos();
            let d0 = match br.read_se() {
                Ok(v) => v,
                Err(e) => {
                    assert(ctx_is(*ctx, want));
                    return Err(e);
                },
            };
            fld(&mut ctx.g2, "delta_pic_order_cnt[0]", dec_i(d0 as i64), s, br.bit_pos(), "");
            if bottom && !field_pic {
                let s = br.bit_pos();
                let d1 = match br.read_se() {
                    Ok(v) => v,
                    Err(e) => {
                        assert(ctx_is(*ctx, want));
                        return Err(e);
                    },
                };
                fld(&mut ctx.g2, "delta_pic_order_cnt[1]", dec_i(d1 as i64), s, br.bit_pos(), "");
            }
        }
    }
    assert(ctx_is(*ctx, want));
    Ok((frame_num, field_pic, idr, poc))
}

/// Reads one reference list modification loop.
fn rplm_exec(br: &mut BitReader, ctx: &mut Ctx, l1: bool) -> (r: Result<(), String>)
    requires
        old(br).wf(),
        ctx_titled(*old(ctx)),
    ensures
        r is Err ==> slice_error(old(br).data(), r->Err_0@),
        final(br).wf(),
        final(br).data() == old(br).data(),
        ctx_titled(*final(ctx)),
        r is Ok <==> rplm_loop(old(br).data(), old(br).cur(), 0) is Some,
        r is Ok ==> final(br).cur() == rplm_loop(old(br).data(), old(br).cur(), 0),
        ctx_is(
            *final(ctx),
            out_join(
                ctx_out(*old(ctx)),
                out_join(
                    out_rows(3, rplm_rows(old(br).data(), old(br).cur(), 0, l1).0),
                    out_warn(rplm_rows(old(br).data(), old(br).cur(), 0, l1).1),
                ),
            ),
        ),
        r is Ok <==> rplm_rows(old(br).data(), old(br).cur(), 0, l1).2 is Some,
        r is Ok ==> final(br).cur() == rplm_rows(old(br).data(), old(br).cur(), 0, l1).2,
{
    proof {
        lemma_slice_errors(old(br).data());
    }
    let ghost d = br.data();
    let ghost c0 = br.cur();
    let ghost o0 = ctx_out(*ctx);
    let ghost total = rplm_rows(d, c0, 0, l1);
    let mut guard: u32 = 0;
    loop
        invariant
            br.wf(),
            br.data() == d,
            old(br).data() == d,
            old(br).cur() == c0,
            ctx_titled(*ctx),
            guard <= 32,
            rplm_loop(d, c0, 0) == rplm_loop(d, br.cur(), guard as nat),
            o0 == ctx_out(*old(ctx)),
            total == rplm_rows(d, c0, 0, l1),
            ctx.g1 == old(ctx).g1,
            ctx.g2 == old(ctx).g2,
            ctx.g4 == old(ctx).g4,
            rows(ctx.g3.fields@) + rplm_rows(d, br.cur(), guard as nat, l1).0 == o0.2 + total.0,
            lines_text(ctx.warnings@) + rplm_rows(d, br.cur(), guard as nat, l1).1 == o0.4 + total.1,
            rplm_rows(d, br.cur(), guard as nat, l1).2 == total.2,
            br.cur() is Some,
        decreases 33 - guard,
    {
        proof {
            lemma_slice_errors(br.data());
        }
        let ghost cg = br.cur();
        let ghost g3r = rows(ctx.g3.fields@);
        let ghost w0 = lines_text(ctx.warnings@);
        let s = br.bit_pos();
        let idc = match br.read_ue() {
            Ok(v) => v,
            Err(e) => {
                assert(g3r + rplm_rows(d, cg, guard as nat, l1).0 =~= g3r);
                assert(w0 + rplm_rows(d, cg, guard as nat, l1).1 =~= w0);
                return Err(e);
            },
        };
        let name = if l1 {
            "modification_of_pic_nums_idc_l1"
        } else {
            "modification_of_pic_nums_idc"
        };
        fld(&mut ctx.g3, name, dec(idc as u64), s, br.bit_pos(), "");
        if idc == 3 {
            assert(g3r + rplm_rows(d, cg, guard as nat, l1).0 =~= rows(ctx.g3.fields@));
            assert(w0 + rplm_rows(d, cg, guard as nat, l1).1 =~= w0);
            return Ok(());
        }
        let ghost g3m = rows(ctx.g3.fields@);
        let s = br.bit_pos();
        let v = match br.read_ue() {
            Ok(v) => v,
            Err(e) => {
                assert(g3r + rplm_rows(d, cg, guard as nat, l1).0 =~= g3m);
                assert(w0 + rplm_rows(d, cg, guard as nat, l1).1 =~= w0);
                return Err(e);
            },
        };
        let name = if l1 {
            "abs_diff/long_term_pic_num_l1"
        } else {
            "abs_diff_pic_num_minus1 / long_term_pic_num"
        };
        fld(&mut ctx.g3, name, dec(v as u64), s, br.bit_pos(), "");
        guard += 1;
        if guard > 32 {
            if !l1 {
                ctx.warnings.push(String::from_str("ref_pic_list_modification 循环异常，停止解析"));
                assert(lines_text(ctx.warnings@) =~= w0.push(rplm_warning()));
            }
            assert(g3r + rplm_rows(d, cg, (guard - 1) as nat, l1).0 =~= rows(ctx.g3.fields@));
            assert(w0 + rplm_rows(d, cg, (guard - 1) as nat, l1).1 =~= lines_text(ctx.warnings@));
            return Ok(());
        }
        assert(g3r + rplm_rows(d, cg, (guard - 1) as nat, l1).0 =~= rows(ctx.g3.fields@) + rplm_rows(
            d,
            br.cur(),
            guard as nat,
            l1,
        ).0);
        assert(w0 + rplm_rows(d, cg, (guard - 1) as nat, l1).1 =~= lines_text(ctx.warnings@) + rplm_rows(
            d,
            br.cur(),
            guard as nat,
            l1,
        ).1);
    }
}

/// Reads the reference list modifications of a slice of base type `b`.
#[verifier::rlimit(60)]
fn refs_mod_exec(br: &mut BitReader, ctx: &mut Ctx, base_type: u32) -> (r: Result<(), String>)
    requires
        old(br).wf(),
        ctx_titled(*old(ctx)),
    ensures
        r is Err ==> slice_error(old(br).data(), r->Err_0@),
        final(br).wf(),
        final(br).data() == old(br).data(),
        ctx_titled(*final(ctx)),
        r is Ok <==> refs_mod_cursor(old(br).data(), old(br).cur(), base_type) is Some,
        r is Ok ==> final(br).cur() == refs_mod_cursor(old(br).data(), old(br).cur(), base_type),
        ctx_is(*final(ctx), out_join(ctx_out(*old(ctx)), refs_mod_rows(old(br).data(), old(br).cur(), base_type).0)),
        r is Ok <==> refs_mod_rows(old(br).data(), old(br).cur(), base_type).1 is Some,
        r is Ok ==> final(br).cur() == refs_mod_rows(old(br).data(), old(br).cur(), base_type).1,
{
    proof {
        lemma_slice_errors(old(br).data());
    }
    let ghost d = br.data();
    let ghost c0 = br.cur();
    let ghost o0 = ctx_out(*ctx);
    let ghost want = out_join(o0, refs_mod_rows(d, c0, base_type).0);
    proof {
        reveal(refs_mod_rows);
    }
    if base_type != 2 && base_type != 4 {
        let flag = match read_flag_field(br, &mut ctx.g3, "ref_pic_list_modification_flag_l0", "") {
            Ok(v) => v,
            Err(e) => {
                assert(ctx_is(*ctx, want));
                return Err(e);
            },
        };
        if flag {
            match rplm_exec(br, ctx, false) {
                Ok(()) => {},
                Err(e) => {
                    assert(ctx_is(*ctx, want));
                    return Err(e);
                },
            }
        }
    }
    if base_type == 1 {
        let flag = match read_flag_field(br, &mut ctx.g3, "ref_pic_list_modification_flag_l1", "") {
            Ok(v) => v,
            Err(e) => {
                assert(ctx_is(*ctx, want));
                return Err(e);
            },
        };
        if flag {
            match rplm_exec(br, ctx, true) {
                Ok(()) => {},
                Err(e) => {
                    assert(ctx_is(*ctx, want));
                    return Err(e);
                },
            }
        }
    }
    assert(ctx_is(*ctx, want));
    Ok(())
}

/// Reads `redundant_pic_cnt`, the direct mode flag and the numbers of
/// active references; gives the numbers of active references.
#[verifier::rlimit(100)]
fn refs_head_exec(br: &mut BitReader, ctx: &mut Ctx, st: u32, pps: Option<Pps>) -> (r: Result<
    (u64, u64),
    String,
>)
    requires
        old(br).wf(),
        ctx_titled(*old(ctx)),
    ensures
        r is Err ==> slice_error(old(br).data(), r->Err_0@),
        final(br).wf(),
        final(br).data() == old(br).data(),
        ctx_titled(*final(ctx)),
        ctx_is(*final(ctx), out_join(ctx_out(*old(ctx)), refs_head_rows(old(br).data(), old(br).cur(), st, pps).0)),
        r is Ok <==> refs_head_rows(old(br).data(), old(br).cur(), st, pps).1 is Some,
        r is Ok ==> final(br).cur() == refs_head_rows(old(br).data(), old(br).cur(), st, pps).1
            && r->Ok_0.0 == slice_refs(old(br).data(), old(br).cur(), st, pps).0 && r->Ok_0.1
            == slice_refs(old(br).data(), old(br).cur(), st, pps).1,
{
    proof {
        lemma_slice_errors(old(br).data());
    }
    let ghost d = br.data();
    let ghost c0 = br.cur();
    let ghost o0 = ctx_out(*ctx);
    let ghost want = out_join(o0, refs_head_rows(d, c0, st, pps).0);
    proof {
        reveal(refs_head_rows);
    }
    let redundant = match pps {
        Some(p) => p.redundant_pic_cnt_present_flag,
        None => false,
    };
    if redundant {
        match read_ue_field(br, &mut ctx.g1, "redundant_pic_cnt", "") {
            Ok(_) => {},
            Err(e) => {
                assert(ctx_is(*ctx, want));
                return Err(e);
            },
        }
    }
    let base_type = if st < 5 {
        st
    } else {
        st - 5
    };
    if base_type == 1 {
        match read_flag_field(br, &mut ctx.g3, "direct_spatial_mv_pred_flag", "B 帧直接模式预测方式") {
            Ok(_) => {},
            Err(e) => {
                assert(ctx_is(*ctx, want));
                return Err(e);
            },
        }
    }
    let (mut num_l0, mut num_l1): (u64, u64) = match pps {
        Some(p) => (
            p.num_ref_idx_l0_default_active_minus1 as u64 + 1,
            p.num_ref_idx_l1_default_active_minus1 as u64 + 1,
        ),
        None => (1, 1),
    };
    let override_flag = match read_flag_field(br, &mut ctx.g3, "num_ref_idx_active_override_flag", "") {
        Ok(v) => v,
        Err(e) => {
            assert(ctx_is(*ctx, want));
            return Err(e);
        },
    };
    if override_flag {
        let n0 = match read_ue_field(br, &mut ctx.g3, "num_ref_idx_l0_active_minus1", "") {
            Ok(v) => v,
            Err(e) => {
                assert(ctx_is(*ctx, want));
                return Err(e);
            },
        };
        num_l0 = n0 as u64 + 1;
        if base_type == 1 {
            let n1 = match read_ue_field(br, &mut ctx.g3, "num_ref_idx_l1_active_minus1", "") {
                Ok(v) => v,
                Err(e) => {
                    assert(ctx_is(*ctx, want));
                    return Err(e);
                },
            };
            num_l1 = n1 as u64 + 1;
        }
    }
    assert(ctx_is(*ctx, want));
    Ok((num_l0, num_l1))
}

/// The cursor after the reference part is that after its modifications.
proof fn lemma_refs_cursor(d: Seq<u8>, c: Option<int>, st: u32, pps: Option<Pps>)
    ensures
        slice_refs(d, c, st, pps).2 == refs_mod_cursor(d, refs_head_rows(d, c, st, pps).1, base_type(st)),
{
    reveal(refs_head_rows);
}

fn refs_exec(br: &mut BitReader, ctx: &mut Ctx, st: u32, pps: Option<Pps>) -> (r: Result<
    (u64, u64),
    String,
>)
    requires
        old(br).wf(),
        ctx_titled(*old(ctx)),
    ensures
        r is Err ==> slice_error(old(br).data(), r->Err_0@),
        final(br).wf(),
        final(br).data() == old(br).data(),
        ctx_titled(*final(ctx)),
        r is Ok <==> slice_refs(old(br).data(), old(br).cur(), st, pps).2 is Some,
        r is Ok ==> final(br).cur() == slice_refs(old(br).data(), old(br).cur(), st, pps).2
            && r->Ok_0.0 == slice_refs(old(br).data(), old(br).cur(), st, pps).0 && r->Ok_0.1
            == slice_refs(old(br).data(), old(br).cur(), st, pps).1,
        ctx_is(*final(ctx), out_join(ctx_out(*old(ctx)), refs_rows(old(br).data(), old(br).cur(), st, pps).0)),
        r is Ok <==> refs_rows(old(br).data(), old(br).cur(), st, pps).1 is Some,
        r is Ok ==> final(br).cur() == refs_rows(old(br).data(), old(br).cur(), st, pps).1,
{
    proof {
        lemma_slice_errors(old(br).data());
    }
    let ghost d = br.data();
    let ghost c0 = br.cur();
    proof {
        lemma_refs_cursor(d, c0, st, pps);
        lemma_refs_mod_none(d, base_type(st));
    }
    let nums = refs_head_exec(br, ctx, st, pps)?;
    let base_type = if st < 5 {
        st
    } else {
        st - 5
    };
    refs_mod_exec(br, ctx, base_type)?;
    Ok(nums)
}

/// A field of list `list` of a prediction weight table: its prefix, then
/// `a`, the numeral of `i` and `b`.
fn pwt_name(list: &str, a: &str, i: u64, b: &str) -> (r: String)
    ensures
        r@ == pwt_prefix(list@) + num_seq(a@, i as nat, b@),
{
    let mut s = cat("pred_weight_table[", list);
    s.append("]");
    let t = num_text(a, i, b);
    s.append(t.as_str());
    s
}

/// A field of list `list` of a prediction weight table: its prefix, then
/// `a`.
fn pwt_field_name(list: &str, a: &str) -> (r: String)
    ensures
        r@ == pwt_prefix(list@) + a@,
{
    let mut s = cat("pred_weight_table[", list);
    s.append("]");
    s.append(a);
    s
}

/// The luma weight flag of entry `i` of list `list`.
fn pwt_flag_name(list: &str, i: u64) -> (r: String)
    ensures
        r@ == pwt_prefix(list@) + ".luma_weight_"@ + list@ + num_seq("_flag["@, i as nat, "]"@),
{
    let mut s = cat("pred_weight_table[", list);
    s.append("]");
    s.append(".luma_weight_");
    s.append(list);
    let t = num_text("_flag[", i, "]");
    s.append(t.as_str());
    s
}

pub proof fn lemma_pwt_entry_rows_none(d: Seq<u8>, i: nat, n: nat, chroma: bool, list: Seq<char>)
    ensures
        pwt_entry_rows(d, None, i, n, chroma, list) == (Seq::<FieldRow>::empty(), None::<int>),
    decreases n - i,
{
    if i < n {
        lemma_pwt_entry_rows_none(d, i + 1, n, chroma, list);
        assert(pwt_entry_rows(d, None, i, n, chroma, list).0 =~= Seq::<FieldRow>::empty());
    }
}

#[verifier::rlimit(80)]
fn pwt_exec(br: &mut BitReader, ctx: &mut Ctx, num_ref: u64, has_chroma: bool, list: &str) -> (r:
    Result<(), String>)
    requires
        old(br).wf(),
        ctx_titled(*old(ctx)),
    ensures
        r is Err ==> slice_error(old(br).data(), r->Err_0@),
        final(br).wf(),
        final(br).data() == old(br).data(),
        ctx_titled(*final(ctx)),
        r is Ok <==> pwt(old(br).data(), old(br).cur(), num_ref as int, has_chroma) is Some,
        r is Ok ==> final(br).cur() == pwt(old(br).data(), old(br).cur(), num_ref as int, has_chroma),
        ctx_is(
            *final(ctx),
            out_join(
                ctx_out(*old(ctx)),
                out_rows(3, pwt_rows(old(br).data(), old(br).cur(), num_ref as int, has_chroma, list@).0),
            ),
        ),
        r is Ok <==> pwt_rows(old(br).data(), old(br).cur(), num_ref as int, has_chroma, list@).1 is Some,
        r is Ok ==> final(br).cur() == pwt_rows(old(br).data(), old(br).cur(), num_ref as int, has_chroma, list@).1,
{
    proof {
        lemma_slice_errors(old(br).data());
    }
    let ghost d = br.data();
    let ghost cs = br.cur();
    let ghost o0 = ctx_out(*ctx);
    let ghost lst = list@;
    let ghost total = pwt_rows(d, cs, num_ref as int, has_chroma, lst);
    if num_ref > 32 {
        assert(o0.2 + total.0 =~= o0.2);
        assert(slice_error(d, ref_count_text(num_ref as nat)));
        return Err(num_text("num_ref_idx_active=", num_ref, " 异常过大（>32），疑似码流损坏"));
    }
    proof {
        lemma_pwt_entries_none(d, 0, num_ref as nat, has_chroma);
        lemma_pwt_entry_rows_none(d, 0, num_ref as nat, has_chroma, lst);
    }
    let s = br.bit_pos();
    let luma_denom = match br.read_ue() {
        Ok(v) => v,
        Err(e) => {
            assert(o0.2 + total.0 =~= o0.2);
            return Err(e);
        },
    };
    fld(&mut ctx.g3, pwt_field_name(list, ".luma_log2_weight_denom").as_str(), dec(luma_denom as u64), s, br.bit_pos(), "");
    if has_chroma {
        let s = br.bit_pos();
        let chroma_denom = match br.read_ue() {
            Ok(v) => v,
            Err(e) => {
                assert(o0.2 + total.0 =~= rows(ctx.g3.fields@));
                return Err(e);
            },
        };
        fld(&mut ctx.g3, pwt_field_name(list, ".chroma_log2_weight_denom").as_str(), dec(chroma_denom as u64), s, br.bit_pos(), "");
    }
    let ghost c0 = br.cur();
    let ghost head = rows(ctx.g3.fields@);
    assert(head + pwt_entry_rows(d, c0, 0, num_ref as nat, has_chroma, lst).0 =~= o0.2 + total.0);
    let mut i: u64 = 0;
    while i < num_ref
        invariant
            br.wf(),
            br.data() == d,
            old(br).data() == d,
            ctx_titled(*ctx),
            i <= num_ref <= 32,
            lst == list@,
            pwt_entries(d, c0, 0, num_ref as nat, has_chroma) == pwt_entries(
                d,
                br.cur(),
                i as nat,
                num_ref as nat,
                has_chroma,
            ),
            pwt(old(br).data(), old(br).cur(), num_ref as int, has_chroma) == pwt_entries(
                d,
                c0,
                0,
                num_ref as nat,
                has_chroma,
            ),
            o0 == ctx_out(*old(ctx)),
            total == pwt_rows(d, old(br).cur(), num_ref as int, has_chroma, lst),
            ctx.g1 == old(ctx).g1,
            ctx.g2 == old(ctx).g2,
            ctx.g4 == old(ctx).g4,
            ctx.warnings == old(ctx).warnings,
            rows(ctx.g3.fields@) + pwt_entry_rows(d, br.cur(), i as nat, num_ref as nat, has_chroma, lst).0
                == o0.2 + total.0,
            pwt_entry_rows(d, br.cur(), i as nat, num_ref as nat, has_chroma, lst).1 == total.1,
            br.cur() is Some,
        decreases num_ref - i,
    {
        proof {
            lemma_slice_errors(br.data());
        }
        let ghost ci = br.cur();
        let ghost g3r = rows(ctx.g3.fields@);
        let ghost here = pwt_entry_rows(d, ci, i as nat, num_ref as nat, has_chroma, lst);
        proof {
            lemma_pwt_entry_rows_none(d, (i + 1) as nat, num_ref as nat, has_chroma, lst);
        }
        let s = br.bit_pos();
        let lw = match br.read_bit() {
            Ok(b) => b == 1,
            Err(e) => {
                proof {
                    lemma_pwt_entries_none(d, (i + 1) as nat, num_ref as nat, has_chroma);
                }
                assert(g3r + here.0 =~= g3r);
                return Err(e);
            },
        };
        fld(&mut ctx.g3, pwt_flag_name(list, i).as_str(), bool_str(lw), s, br.bit_pos(), "");
        let ghost g3a = rows(ctx.g3.fields@);
        if lw {
            let s = br.bit_pos();
            let dw = match br.read_se() {
                Ok(v) => v,
                Err(e) => {
                    proof {
                        lemma_pwt_entries_none(d, (i + 1) as nat, num_ref as nat, has_chroma);
                    }
                    assert(g3r + here.0 =~= g3a);
                    return Err(e);
                },
            };
            let off = match br.read_se() {
                Ok(v) => v,
                Err(e) => {
                    proof {
                        lemma_pwt_entries_none(d, (i + 1) as nat, num_ref as nat, has_chroma);
                    }
                    assert(g3r + here.0 =~= g3a);
                    return Err(e);
                },
            };
            let mut v = crate::text::int_text("delta=", dw as i64, ", offset=");
            crate::text::push_dec_i64(&mut v, off as i64);
            fld(&mut ctx.g3, pwt_name(list, ".luma[", i, "]").as_str(), v, s, br.bit_pos(), "");
        }
        let ghost g3b = rows(ctx.g3.fields@);
        if has_chroma {
            let s = br.bit_pos();
            let cw = match br.read_bit() {
                Ok(b) => b == 1,
                Err(e) => {
                    proof {
                        lemma_pwt_entries_none(d, (i + 1) as nat, num_ref as nat, has_chroma);
                    }
                    assert(g3r + here.0 =~= g3b);
                    return Err(e);
                },
            };
            fld(&mut ctx.g3, pwt_name(list, ".chroma_flag[", i, "]").as_str(), bool_str(cw), s, br.bit_pos(), "");
            let ghost g3c = rows(ctx.g3.fields@);
            if cw {
                let s = br.bit_pos();
                let r1 = br.read_se();
                let r2 = if r1.is_ok() { br.read_se() } else { Err(String::new()) };
                let r3 = if r2.is_ok() { br.read_se() } else { Err(String::new()) };
                let r4 = if r3.is_ok() { br.read_se() } else { Err(String::new()) };
                match (r1, r2, r3, r4) {
                    (Ok(dw), Ok(off), Ok(dw2), Ok(off2)) => {
                        let mut v = crate::text::int_text("delta=", dw as i64, ",");
                        crate::text::push_dec_i64(&mut v, dw2 as i64);
                        v.append(" offset=");
                        crate::text::push_dec_i64(&mut v, off as i64);
                        v.append(",");
                        crate::text::push_dec_i64(&mut v, off2 as i64);
                        fld(&mut ctx.g3, pwt_name(list, ".chroma[", i, "]").as_str(), v, s, br.bit_pos(), "");
                    },
                    (r1, r2, r3, r4) => {
                        proof {
                            lemma_pwt_entries_none(d, (i + 1) as nat, num_ref as nat, has_chroma);
                        }
                        assert(g3r + here.0 =~= g3c);
                        let e = match (r1, r2, r3, r4) {
                            (Err(e), _, _, _) => e,
                            (_, Err(e), _, _) => e,
                            (_, _, Err(e), _) => e,
                            (_, _, _, Err(e)) => e,
                            _ => String::new(),
                        };
                        return Err(e);
                    },
                }
            }
        }
        assert(g3r + here.0 =~= rows(ctx.g3.fields@) + pwt_entry_rows(
            d,
            br.cur(),
            (i + 1) as nat,
            num_ref as nat,
            has_chroma,
            lst,
        ).0);
        i += 1;
    }
    assert(rows(ctx.g3.fields@) =~= o0.2 + total.0);
    Ok(())
}

pub proof fn lemma_pwt_entries_none(d: Seq<u8>, i: nat, n: nat, chroma: bool)
    ensures
        pwt_entries(d, None, i, n, chroma) == None::<int>,
    decreases n - i,
{
    if i < n {
        lemma_pwt_entries_none(d, i + 1, n, chroma);
    }
}

fn weights_exec(
    br: &mut BitReader,
    ctx: &mut Ctx,
    st: u32,
    sps: Sps,
    pps: Option<Pps>,
    num_l0: u64,
    num_l1: u64,
) -> (r: Result<(), String>)
    requires
        old(br).wf(),
        ctx_titled(*old(ctx)),
    ensures
        r is Err ==> slice_error(old(br).data(), r->Err_0@),
        final(br).wf(),
        final(br).data() == old(br).data(),
        ctx_titled(*final(ctx)),
        r is Ok <==> slice_weights(
            old(br).data(),
            old(br).cur(),
            st,
            sps,
            pps,
            num_l0 as int,
            num_l1 as int,
        ) is Some,
        r is Ok ==> final(br).cur() == slice_weights(
            old(br).data(),
            old(br).cur(),
            st,
            sps,
            pps,
            num_l0 as int,
            num_l1 as int,
        ),
        ctx_is(
            *final(ctx),
            out_join(
                ctx_out(*old(ctx)),
                out_rows(3, weights_rows(old(br).data(), old(br).cur(), st, sps, pps, num_l0 as int, num_l1 as int).0),
            ),
        ),
        r is Ok <==> weights_rows(old(br).data(), old(br).cur(), st, sps, pps, num_l0 as int, num_l1 as int).1 is Some,
        r is Ok ==> final(br).cur() == weights_rows(
            old(br).data(),
            old(br).cur(),
            st,
            sps,
            pps,
            num_l0 as int,
            num_l1 as int,
        ).1,
{
    proof {
        lemma_slice_errors(old(br).data());
    }
    let ghost d = br.data();
    let ghost c0 = br.cur();
    let ghost o0 = ctx_out(*ctx);
    proof {
        reveal(weights_rows);
        lemma_pwt_rows_none(d, num_l1 as int, sps.chroma_format_idc != 0, "l1"@);
    }
    let base_type = if st < 5 {
        st
    } else {
        st - 5
    };
    let (wp, wb) = match pps {
        Some(p) => (p.weighted_pred_flag, p.weighted_bipred_idc),
        None => (false, 0u32),
    };
    let has_chroma = sps.chroma_format_idc != 0;
    proof {
        lemma_slice_none();
    }
    if (base_type == 0 || base_type == 3) && wp {
        pwt_exec(br, ctx, num_l0, has_chroma, "l0")?;
    } else if base_type == 1 && wb == 1 {
        let ghost mid = ctx_out(*ctx);
        match pwt_exec(br, ctx, num_l0, has_chroma, "l0") {
            Ok(()) => {},
            Err(e) => {
                assert(ctx_is(*ctx, out_join(o0, out_rows(3, weights_rows(d, c0, st, sps, pps, num_l0 as int, num_l1 as int).0))));
                return Err(e);
            },
        }
        let ghost mid2 = ctx_out(*ctx);
        pwt_exec(br, ctx, num_l1, has_chroma, "l1")?;
    } else {
        assert(ctx_is(*ctx, out_join(o0, out_rows(3, weights_rows(d, c0, st, sps, pps, num_l0 as int, num_l1 as int).0))));
    }
    Ok(())
}

/// A failed cursor stays failed through each part of a slice header.
pub proof fn lemma_pwt_none(d: Seq<u8>, n: int, chroma: bool)
    ensures
        pwt(d, None, n, chroma) == None::<int>,
{
    if n <= 32 {
        lemma_pwt_entries_none(d, 0, n as nat, chroma);
    }
}

pub proof fn lemma_weights_none(
    d: Seq<u8>,
    st: u32,
    sps: Sps,
    pps: Option<Pps>,
    n0: int,
    n1: int,
)
    ensures
        slice_weights(d, None, st, sps, pps, n0, n1) == None::<int>,
{
    lemma_pwt_none(d, n0, sps.chroma_format_idc != 0);
    lemma_pwt_none(d, n1, sps.chroma_format_idc != 0);
}

pub proof fn lemma_marking_none(d: Seq<u8>, r: u8, idr: bool)
    ensures
        slice_marking(d, None, r, idr) == None::<int>,
{
}

/// A failed cursor stays failed through every part of a slice header.
pub proof fn lemma_slice_none()
    ensures
        forall|d: Seq<u8>, n: int, chroma: bool| #[trigger] pwt(d, None, n, chroma) == None::<int>,
        forall|d: Seq<u8>, st: u32, pps: Option<Pps>|
            (#[trigger] slice_refs(d, None, st, pps)).2 == None::<int>,
        forall|d: Seq<u8>, st: u32, sps: Sps, pps: Option<Pps>, n0: int, n1: int|
            #[trigger] slice_weights(d, None, st, sps, pps, n0, n1) == None::<int>,
        forall|d: Seq<u8>, r: u8, idr: bool| #[trigger] slice_marking(d, None, r, idr) == None::<int>,
        forall|d: Seq<u8>, st: u32, pps: Option<Pps>| #[trigger] slice_tail(d, None, st, pps) == None::<int>,
{
    assert forall|d: Seq<u8>, n: int, chroma: bool| #[trigger] pwt(d, None, n, chroma) == None::<int> by {
        lemma_pwt_none(d, n, chroma);
    }
    assert forall|d: Seq<u8>, st: u32, sps: Sps, pps: Option<Pps>, n0: int, n1: int|
        #[trigger] slice_weights(d, None, st, sps, pps, n0, n1) == None::<int> by {
        lemma_weights_none(d, st, sps, pps, n0, n1);
    }
    assert forall|d: Seq<u8>, r: u8, idr: bool| #[trigger] slice_marking(d, None, r, idr) == None::<int> by {
        lemma_marking_none(d, r, idr);
    }
}

pub proof fn lemma_pwt_rows_none(d: Seq<u8>, n: int, chroma: bool, list: Seq<char>)
    ensures
        pwt_rows(d, None, n, chroma, list) == (Seq::<FieldRow>::empty(), None::<int>),
{
    if n <= 32 {
        lemma_pwt_entry_rows_none(d, 0, n as nat, chroma, list);
        assert(pwt_rows(d, None, n, chroma, list).0 =~= Seq::<FieldRow>::empty());
    }
}

pub proof fn lemma_refs_mod_none(d: Seq<u8>, b: u32)
    ensures
        refs_mod_rows(d, None, b) == (out_empty(), None::<int>),
{
    reveal(refs_mod_rows);
    assert(refs_mod_rows(d, None, b).0 =~= out_empty());
}

/// A failed cursor lists nothing more in any part of a slice header.
pub proof fn lemma_rows_none(d: Seq<u8>, st: u32, sps: Sps, pps: Option<Pps>, is_idr: bool, nal_ref_idc: u8, n0: int, n1: int)
    ensures
        pic_rows(d, None, sps, pps, is_idr) == (out_empty(), None::<int>),
        refs_rows(d, None, st, pps) == (out_empty(), None::<int>),
        weights_rows(d, None, st, sps, pps, n0, n1) == (Seq::<FieldRow>::empty(), None::<int>),
        marking_rows(d, None, nal_ref_idc, is_idr) == (Seq::<FieldRow>::empty(), Seq::<Seq<char>>::empty(), None::<int>),
        tail_rows(d, None, st, pps) == (Seq::<FieldRow>::empty(), None::<int>),
{
    reveal(pic_rows);
    reveal(refs_head_rows);
    reveal(refs_mod_rows);
    reveal(weights_rows);
    reveal(marking_rows);
    reveal(tail_rows);
    lemma_pwt_rows_none(d, n0, sps.chroma_format_idc != 0, "l0"@);
    lemma_pwt_rows_none(d, n1, sps.chroma_format_idc != 0, "l1"@);
    assert(pic_rows(d, None, sps, pps, is_idr).0 =~= out_empty());
    assert(refs_head_rows(d, None, st, pps).0 =~= out_empty());
    assert(refs_mod_rows(d, None, base_type(st)).0 =~= out_empty());
    assert(refs_rows(d, None, st, pps).0 =~= out_empty());
    assert(weights_rows(d, None, st, sps, pps, n0, n1).0 =~= Seq::<FieldRow>::empty());
    assert(marking_rows(d, None, nal_ref_idc, is_idr).0 =~= Seq::<FieldRow>::empty());
    assert(tail_rows(d, None, st, pps).0 =~= Seq::<FieldRow>::empty());
}

#[verifier::rlimit(60)]
fn mmco_exec(br: &mut BitReader, ctx: &mut Ctx) -> (r: Result<(), String>)
    requires
        old(br).wf(),
        ctx_titled(*old(ctx)),
    ensures
        r is Err ==> slice_error(old(br).data(), r->Err_0@),
        final(br).wf(),
        final(br).data() == old(br).data(),
        ctx_titled(*final(ctx)),
        r is Ok <==> mmco_loop(old(br).data(), old(br).cur(), 0) is Some,
        r is Ok ==> final(br).cur() == mmco_loop(old(br).data(), old(br).cur(), 0),
        ctx_is(
            *final(ctx),
            out_join(
                ctx_out(*old(ctx)),
                out_join(
                    out_rows(3, mmco_rows(old(br).data(), old(br).cur(), 0).0),
                    out_warn(mmco_rows(old(br).data(), old(br).cur(), 0).1),
                ),
            ),
        ),
        r is Ok <==> mmco_rows(old(br).data(), old(br).cur(), 0).2 is Some,
        r is Ok ==> final(br).cur() == mmco_rows(old(br).data(), old(br).cur(), 0).2,
{
    proof {
        lemma_slice_errors(old(br).data());
    }
    let ghost d = br.data();
    let ghost c0 = br.cur();
    let ghost o0 = ctx_out(*ctx);
    let ghost total = mmco_rows(d, c0, 0);
    let mut guard: u32 = 0;
    loop
        invariant
            br.wf(),
            br.data() == d,
            old(br).data() == d,
            old(br).cur() == c0,
            ctx_titled(*ctx),
            guard <= 64,
            mmco_loop(d, c0, 0) == mmco_loop(d, br.cur(), guard as nat),
            o0 == ctx_out(*old(ctx)),
            total == mmco_rows(d, c0, 0),
            ctx.g1 == old(ctx).g1,
            ctx.g2 == old(ctx).g2,
            ctx.g4 == old(ctx).g4,
            rows(ctx.g3.fields@) + mmco_rows(d, br.cur(), guard as nat).0 == o0.2 + total.0,
            lines_text(ctx.warnings@) + mmco_rows(d, br.cur(), guard as nat).1 == o0.4 + total.1,
            mmco_rows(d, br.cur(), guard as nat).2 == total.2,
            br.cur() is Some,
        decreases 65 - guard,
    {
        proof {
            lemma_slice_errors(br.data());
        }
        let ghost cg = br.cur();
        let ghost g3r = rows(ctx.g3.fields@);
        let ghost w0 = lines_text(ctx.warnings@);
        let ghost here = mmco_rows(d, cg, guard as nat);
        let s = br.bit_pos();
        let op = match br.read_ue() {
            Ok(v) => v,
            Err(e) => {
                assert(g3r + here.0 =~= g3r);
                assert(w0 + here.1 =~= w0);
                return Err(e);
            },
        };
        fld(&mut ctx.g3, "memory_management_control_operation", dec(op as u64), s, br.bit_pos(), "");
        let ghost c1 = br.cur();
        let ghost g3m = rows(ctx.g3.fields@);
        if op == 0 {
            assert(g3r + here.0 =~= g3m);
            assert(w0 + here.1 =~= w0);
            return Ok(());
        }
        // 7.3.3.3: op 1 reads difference_of_pic_nums_minus1; op 2 and 6 read
        // long_term_frame_idx; op 3 reads both; op 4 reads
        // max_long_term_frame_idx_plus1; op 5 has no parameter
        if op == 1 {
            match read_ue_field(br, &mut ctx.g3, "difference_of_pic_nums_minus1", "") {
                Ok(_) => {},
                Err(e) => {
                    assert(g3r + here.0 =~= g3m);
                    assert(w0 + here.1 =~= w0);
                    return Err(e);
                },
            }
        } else if op == 2 || op == 6 {
            match read_ue_field(br, &mut ctx.g3, "long_term_frame_idx", "") {
                Ok(_) => {},
                Err(e) => {
                    assert(g3r + here.0 =~= g3m);
                    assert(w0 + here.1 =~= w0);
                    return Err(e);
                },
            }
        } else if op == 3 {
            let s = br.bit_pos();
            let v1 = match br.read_ue() {
                Ok(v) => v,
                Err(e) => {
                    assert(g3r + here.0 =~= g3m);
                    assert(w0 + here.1 =~= w0);
                    return Err(e);
                },
            };
            let v2 = match br.read_ue() {
                Ok(v) => v,
                Err(e) => {
                    assert(g3r + here.0 =~= g3m);
                    assert(w0 + here.1 =~= w0);
                    return Err(e);
                },
            };
            fld(&mut ctx.g3, "difference_of_pic_nums_minus1", dec(v1 as u64), s, br.bit_pos(), "");
            let s = br.bit_pos();
            fld(&mut ctx.g3, "long_term_frame_idx", dec(v2 as u64), s, br.bit_pos(), "");
        } else if op == 4 {
            match read_ue_field(br, &mut ctx.g3, "max_long_term_frame_idx_plus1", "") {
                Ok(_) => {},
                Err(e) => {
                    assert(g3r + here.0 =~= g3m);
                    assert(w0 + here.1 =~= w0);
                    return Err(e);
                },
            }
        } else if op == 5 {
        } else {
            ctx.warnings.push(
                num_text("memory_management_control_operation=", op as u64, " 非法（>6），停止解析"),
            );
            assert(g3r + here.0 =~= g3m);
            assert(w0 + here.1 =~= lines_text(ctx.warnings@));
            assert(slice_error(br.data(), mmco_text(op as nat)));
            return Err(num_text("MMCO 操作码 ", op as u64, " 非法"));
        }
        guard += 1;
        if guard > 64 {
            ctx.warnings.push(String::from_str("dec_ref_pic_marking 循环异常"));
            assert(g3r + here.0 =~= rows(ctx.g3.fields@));
            assert(w0 + here.1 =~= lines_text(ctx.warnings@));
            return Ok(());
        }
        assert(g3r + here.0 =~= rows(ctx.g3.fields@) + mmco_rows(d, br.cur(), guard as nat).0);
        assert(w0 + here.1 =~= lines_text(ctx.warnings@) + mmco_rows(d, br.cur(), guard as nat).1);
    }
}

fn marking_exec(br: &mut BitReader, ctx: &mut Ctx, nal_ref_idc: u8, is_idr: bool) -> (r: Result<
    (),
    String,
>)
    requires
        old(br).wf(),
        ctx_titled(*old(ctx)),
    ensures
        r is Err ==> slice_error(old(br).data(), r->Err_0@),
        final(br).wf(),
        final(br).data() == old(br).data(),
        ctx_titled(*final(ctx)),
        r is Ok <==> slice_marking(old(br).data(), old(br).cur(), nal_ref_idc, is_idr) is Some,
        r is Ok ==> final(br).cur() == slice_marking(old(br).data(), old(br).cur(), nal_ref_idc, is_idr),
        ctx_is(
            *final(ctx),
            out_join(
                ctx_out(*old(ctx)),
                out_join(
                    out_rows(3, marking_rows(old(br).data(), old(br).cur(), nal_ref_idc, is_idr).0),
                    out_warn(marking_rows(old(br).data(), old(br).cur(), nal_ref_idc, is_idr).1),
                ),
            ),
        ),
        r is Ok <==> marking_rows(old(br).data(), old(br).cur(), nal_ref_idc, is_idr).2 is Some,
        r is Ok ==> final(br).cur() == marking_rows(old(br).data(), old(br).cur(), nal_ref_idc, is_idr).2,
{
    proof {
        lemma_slice_errors(old(br).data());
    }
    let ghost d = br.data();
    let ghost c0 = br.cur();
    let ghost o0 = ctx_out(*ctx);
    proof {
        reveal(marking_rows);
    }
    if nal_ref_idc == 0 {
        assert(ctx_is(*ctx, out_join(o0, out_join(out_rows(3, seq![]), out_warn(seq![])))));
        return Ok(());
    }
    if is_idr {
        let s = br.bit_pos();
        let v1 = match br.read_bit() {
            Ok(b) => b == 1,
            Err(e) => {
                assert(ctx_is(*ctx, out_join(o0, out_join(out_rows(3, seq![]), out_warn(seq![])))));
                return Err(e);
            },
        };
        let v2 = match br.read_bit() {
            Ok(b) => b == 1,
            Err(e) => {
                assert(ctx_is(*ctx, out_join(o0, out_join(out_rows(3, seq![]), out_warn(seq![])))));
                return Err(e);
            },
        };
        fld(&mut ctx.g3, "no_output_of_prior_pics_flag", bool_str(v1), s, br.bit_pos(), "");
        let s = br.bit_pos();
        fld(&mut ctx.g3, "long_term_reference_flag", bool_str(v2), s, br.bit_pos(), "");
        assert(ctx_is(
            *ctx,
            out_join(o0, out_join(out_rows(3, marking_rows(d, c0, nal_ref_idc, is_idr).0), out_warn(seq![]))),
        ));
    } else {
        let adaptive = match read_flag_field(br, &mut ctx.g3, "adaptive_ref_pic_marking_mode_flag", "1=显式管理参考帧") {
            Ok(v) => v,
            Err(e) => {
                assert(ctx_is(*ctx, out_join(o0, out_join(out_rows(3, seq![]), out_warn(seq![])))));
                return Err(e);
            },
        };
        if adaptive {
            mmco_exec(br, ctx)?;
        } else {
            assert(ctx_is(
                *ctx,
                out_join(o0, out_join(out_rows(3, marking_rows(d, c0, nal_ref_idc, is_idr).0), out_warn(seq![]))),
            ));
        }
    }
    Ok(())
}

#[verifier::rlimit(40)]
fn tail_exec(br: &mut BitReader, ctx: &mut Ctx, st: u32, pps: Option<Pps>) -> (r: Result<
    (),
    String,
>)
    requires
        old(br).wf(),
        ctx_titled(*old(ctx)),
    ensures
        r is Err ==> slice_error(old(br).data(), r->Err_0@),
        final(br).wf(),
        final(br).data() == old(br).data(),
        ctx_titled(*final(ctx)),
        r is Ok <==> slice_tail(old(br).data(), old(br).cur(), st, pps) is Some,
        r is Ok ==> final(br).cur() == slice_tail(old(br).data(), old(br).cur(), st, pps),
        ctx_is(*final(ctx), out_join(ctx_out(*old(ctx)), out_rows(4, tail_rows(old(br).data(), old(br).cur(), st, pps).0))),
        r is Ok <==> tail_rows(old(br).data(), old(br).cur(), st, pps).1 is Some,
        r is Ok ==> final(br).cur() == tail_rows(old(br).data(), old(br).cur(), st, pps).1,
{
    proof {
        lemma_slice_errors(old(br).data());
    }
    let ghost d = br.data();
    let ghost c0 = br.cur();
    let ghost o0 = ctx_out(*ctx);
    let ghost want = out_join(o0, out_rows(4, tail_rows(d, c0, st, pps).0));
    proof {
        reveal(tail_rows);
    }
    let base_type = if st < 5 {
        st
    } else {
        st - 5
    };
    let (entropy, deblock) = match pps {
        Some(p) => (p.entropy_coding_mode_flag, p.deblocking_filter_control_present_flag),
        None => (false, false),
    };
    if entropy && base_type != 2 && base_type != 4 {
        match read_ue_field(br, &mut ctx.g4, "cabac_init_idc", "") {
            Ok(_) => {},
            Err(e) => {
                assert(ctx_is(*ctx, want));
                return Err(e);
            },
        }
    }
    let s = br.bit_pos();
    let qp_delta = match br.read_se() {
        Ok(v) => v,
        Err(e) => {
            assert(ctx_is(*ctx, want));
            return Err(e);
        },
    };
    fld(&mut ctx.g4, "slice_qp_delta", dec_i(qp_delta as i64), s, br.bit_pos(), "");
    if base_type == 3 || base_type == 4 {
        let s = br.bit_pos();
        let qs = match br.read_se() {
            Ok(v) => v,
            Err(e) => {
                assert(ctx_is(*ctx, want));
                return Err(e);
            },
        };
        fld(&mut ctx.g4, "slice_qs_delta", dec_i(qs as i64), s, br.bit_pos(), "");
    }
    if deblock {
        let idc = match read_ue_field(br, &mut ctx.g4, "disable_deblocking_filter_idc", "0=启用滤波 1=禁用 2=自定义") {
            Ok(v) => v,
            Err(e) => {
                assert(ctx_is(*ctx, want));
                return Err(e);
            },
        };
        if idc != 1 {
            let s = br.bit_pos();
            let alpha = match br.read_se() {
                Ok(v) => v,
                Err(e) => {
                    assert(ctx_is(*ctx, want));
                    return Err(e);
                },
            };
            let beta = match br.read_se() {
                Ok(v) => v,
                Err(e) => {
                    assert(ctx_is(*ctx, want));
                    return Err(e);
                },
            };
            fld(&mut ctx.g4, "slice_alpha_c0/beta_offset_div2", crate::text::int_pair_text(alpha as i64, "/", beta as i64), s, br.bit_pos(), "");
        }
    }
    assert(ctx_is(*ctx, want));
    Ok(())
}

/// A failed cursor lists nothing more after the start of a slice header.
proof fn lemma_rest_none(d: Seq<u8>, st: u32, nal_ref_idc: u8, is_idr: bool, sp: Sps, pps: Option<Pps>)
    ensures
        slice_rest_out(d, None, st, nal_ref_idc, is_idr, sp, pps) == (out_empty(), None::<int>),
{
    reveal(rest_a_out);
    reveal(rest_b_out);
    let n = slice_refs(d, pic_rows(d, None, sp, pps, is_idr).1, st, pps);
    lemma_rows_none(d, st, sp, pps, is_idr, nal_ref_idc, n.0, n.1);
    assert(slice_rest_out(d, None, st, nal_ref_idc, is_idr, sp, pps).0 =~= out_empty());
}

/// Reads and lists the start of a slice header.
#[verifier::rlimit(60)]
fn start_exec(br: &mut BitReader, ctx: &mut Ctx, sps: Option<Sps>) -> (r: Result<(u32, u32, u32), String>)
    requires
        old(br).wf(),
        old(br).pos() == 0,
        ctx_titled(*old(ctx)),
    ensures
        r is Err ==> slice_error(old(br).data(), r->Err_0@),
        final(br).wf(),
        final(br).data() == old(br).data(),
        ctx_titled(*final(ctx)),
        ctx_is(*final(ctx), out_join(ctx_out(*old(ctx)), out_rows(1, start_rows(old(br).data(), sps).0))),
        r is Ok <==> start_rows(old(br).data(), sps).1 is Some,
        r is Ok <==> start_cursor(old(br).data(), sps) is Some,
        r is Ok ==> final(br).cur() == start_rows(old(br).data(), sps).1 && final(br).cur() == start_cursor(
            old(br).data(),
            sps,
        ),
        r is Ok ==> r->Ok_0 == (
            slice_start(old(br).data()).0.first_mb_in_slice,
            slice_start(old(br).data()).0.slice_type,
            slice_start(old(br).data()).0.pic_parameter_set_id,
        ),
{
    proof {
        lemma_slice_errors(old(br).data());
    }
    let ghost d = br.data();
    let ghost o0 = ctx_out(*ctx);
    let ghost so = out_join(o0, out_rows(1, start_rows(d, sps).0));
    proof {
        reveal(start_rows);
    }
    let s = br.bit_pos();
    let first_mb = match br.read_ue() {
        Ok(v) => v,
        Err(e) => {
            assert(ctx_is(*ctx, so));
            return Err(e);
        },
    };
    fld(&mut ctx.g1, "first_mb_in_slice", dec(first_mb as u64), s, br.bit_pos(), "0 表示新图像的第一个切片");
    let s = br.bit_pos();
    let st = match br.read_ue() {
        Ok(v) => v,
        Err(e) => {
            assert(ctx_is(*ctx, so));
            return Err(e);
        },
    };
    fld(&mut ctx.g1, "slice_type", slice_type_name(st), s, br.bit_pos(), "");
    let pps_id = match read_ue_field(br, &mut ctx.g1, "pic_parameter_set_id", "") {
        Ok(v) => v,
        Err(e) => {
            assert(ctx_is(*ctx, so));
            return Err(e);
        },
    };
    match sps {
        Some(sp) => {
            if sp.separate_colour_plane_flag {
                let s = br.bit_pos();
                let v = match br.read_bits(2) {
                    Ok(v) => v,
                    Err(e) => {
                        assert(ctx_is(*ctx, so));
                        return Err(e);
                    },
                };
                fld(&mut ctx.g1, "colour_plane_id", dec(v as u64), s, br.bit_pos(), "");
            }
        },
        None => {},
    }
    assert(ctx_is(*ctx, so));
    Ok((first_mb, st, pps_id))
}

/// Reads and lists the picture and reference parts of a slice header;
/// gives the frame number, `idr_pic_id`, `pic_order_cnt_lsb` and the
/// numbers of active references.
#[verifier::rlimit(60)]
fn rest_a_exec(br: &mut BitReader, ctx: &mut Ctx, st: u32, sp: Sps, pps: Option<Pps>, is_idr: bool) -> (r: Result<
    (u32, Option<u32>, Option<u32>, u64, u64),
    String,
>)
    requires
        old(br).wf(),
        ctx_titled(*old(ctx)),
    ensures
        r is Err ==> slice_error(old(br).data(), r->Err_0@),
        final(br).wf(),
        final(br).data() == old(br).data(),
        ctx_titled(*final(ctx)),
        ctx_is(*final(ctx), out_join(ctx_out(*old(ctx)), rest_a_out(old(br).data(), old(br).cur(), st, sp, pps, is_idr).0)),
        r is Ok <==> rest_a_out(old(br).data(), old(br).cur(), st, sp, pps, is_idr).1 is Some,
        r is Ok ==> final(br).cur() == rest_a_out(old(br).data(), old(br).cur(), st, sp, pps, is_idr).1,
        forall|v: SliceVals|
            {
                let (v2, fp, c1) = #[trigger] slice_pic(old(br).data(), old(br).cur(), v, sp, pps, is_idr);
                let (n0, n1, c2) = slice_refs(old(br).data(), c1, st, pps);
                &&& (r is Ok <==> c2 is Some)
                &&& r is Ok ==> final(br).cur() == c2 && r->Ok_0 == (
                    v2.frame_num.unwrap(),
                    v2.idr_pic_id,
                    v2.pic_order_cnt_lsb,
                    n0 as u64,
                    n1 as u64,
                ) && c1 == pic_rows(old(br).data(), old(br).cur(), sp, pps, is_idr).1
            },
{
    proof {
        lemma_slice_errors(old(br).data());
    }
    let ghost d = br.data();
    let ghost c0 = br.cur();
    let ghost o0 = ctx_out(*ctx);
    proof {
        reveal(rest_a_out);
        lemma_slice_none();
        lemma_rows_none(d, st, sp, pps, is_idr, 0, 0, 0);
    }
    let (frame_num, _field_pic, idr, poc) = pic_exec(br, ctx, sp, pps, is_idr)?;
    let (num_l0, num_l1) = refs_exec(br, ctx, st, pps)?;
    Ok((frame_num, idr, poc, num_l0, num_l1))
}

/// Reads and lists the weight tables, the reference marking and the
/// quantiser part of a slice header, and warns of slice groups.
#[verifier::rlimit(60)]
fn rest_b_exec(
    br: &mut BitReader,
    ctx: &mut Ctx,
    st: u32,
    nal_ref_idc: u8,
    is_idr: bool,
    sp: Sps,
    pps: Option<Pps>,
    num_l0: u64,
    num_l1: u64,
) -> (r: Result<(), String>)
    requires
        old(br).wf(),
        ctx_titled(*old(ctx)),
    ensures
        r is Err ==> slice_error(old(br).data(), r->Err_0@),
        final(br).wf(),
        final(br).data() == old(br).data(),
        ctx_titled(*final(ctx)),
        ctx_is(
            *final(ctx),
            out_join(
                ctx_out(*old(ctx)),
                rest_b_out(old(br).data(), old(br).cur(), st, nal_ref_idc, is_idr, sp, pps, num_l0 as int, num_l1 as int).0,
            ),
        ),
        r is Ok <==> rest_b_out(
            old(br).data(),
            old(br).cur(),
            st,
            nal_ref_idc,
            is_idr,
            sp,
            pps,
            num_l0 as int,
            num_l1 as int,
        ).1 is Some,
        r is Ok ==> final(br).cur() == rest_b_out(
            old(br).data(),
            old(br).cur(),
            st,
            nal_ref_idc,
            is_idr,
            sp,
            pps,
            num_l0 as int,
            num_l1 as int,
        ).1,
        r is Ok <==> slice_tail(
            old(br).data(),
            slice_marking(
                old(br).data(),
                slice_weights(old(br).data(), old(br).cur(), st, sp, pps, num_l0 as int, num_l1 as int),
                nal_ref_idc,
                is_idr,
            ),
            st,
            pps,
        ) is Some,
{
    proof {
        lemma_slice_errors(old(br).data());
    }
    let ghost d = br.data();
    let ghost c0 = br.cur();
    let ghost o0 = ctx_out(*ctx);
    proof {
        reveal(rest_b_out);
        lemma_slice_none();
        lemma_rows_none(d, st, sp, pps, is_idr, nal_ref_idc, num_l0 as int, num_l1 as int);
    }
    weights_exec(br, ctx, st, sp, pps, num_l0, num_l1)?;
    marking_exec(br, ctx, nal_ref_idc, is_idr)?;
    tail_exec(br, ctx, st, pps)?;
    let groups = match pps {
        Some(p) => p.num_slice_groups_minus1,
        None => 0,
    };
    let ghost w_before = lines_text(ctx.warnings@);
    if groups > 0 {
        ctx.warnings.push(String::from_str("多切片组(FMO)切片头未解析 slice_group_change_cycle"));
        assert(lines_text(ctx.warnings@) =~= w_before.push(fmo_slice_warning()));
    }
    assert(ctx_is(
        *ctx,
        out_join(o0, rest_b_out(d, c0, st, nal_ref_idc, is_idr, sp, pps, num_l0 as int, num_l1 as int).0),
    ));
    Ok(())
}

/// Reads and lists a slice header from its picture part on, with its SPS.
fn rest_exec(
    br: &mut BitReader,
    ctx: &mut Ctx,
    st: u32,
    nal_ref_idc: u8,
    is_idr: bool,
    sp: Sps,
    pps: Option<Pps>,
) -> (r: Result<(u32, Option<u32>, Option<u32>), String>)
    requires
        old(br).wf(),
        ctx_titled(*old(ctx)),
    ensures
        r is Err ==> slice_error(old(br).data(), r->Err_0@),
        final(br).wf(),
        final(br).data() == old(br).data(),
        ctx_titled(*final(ctx)),
        ctx_is(
            *final(ctx),
            out_join(ctx_out(*old(ctx)), slice_rest_out(old(br).data(), old(br).cur(), st, nal_ref_idc, is_idr, sp, pps).0),
        ),
        r is Ok <==> slice_rest_out(old(br).data(), old(br).cur(), st, nal_ref_idc, is_idr, sp, pps).1 is Some,
        r is Ok ==> final(br).cur() == slice_rest_out(old(br).data(), old(br).cur(), st, nal_ref_idc, is_idr, sp, pps).1,
        forall|v: SliceVals|
            v.slice_type == st ==> {
                let res = #[trigger] rest_result(old(br).data(), old(br).cur(), v, nal_ref_idc, is_idr, sp, pps);
                &&& (r is Ok <==> res is Some)
                &&& r is Ok ==> r->Ok_0 == (res->0.frame_num.unwrap(), res->0.idr_pic_id, res->0.pic_order_cnt_lsb)
                &&& r is Ok ==> res->0.first_mb_in_slice == v.first_mb_in_slice && res->0.slice_type == v.slice_type
                    && res->0.pic_parameter_set_id == v.pic_parameter_set_id
            },
{
    proof {
        lemma_slice_errors(old(br).data());
    }
    let ghost d = br.data();
    let ghost c0 = br.cur();
    let ghost o0 = ctx_out(*ctx);
    let ghost cp = pic_rows(d, c0, sp, pps, is_idr).1;
    let ghost n0 = slice_refs(d, cp, st, pps).0;
    let ghost n1 = slice_refs(d, cp, st, pps).1;
    proof {
        lemma_rows_none(d, st, sp, pps, is_idr, nal_ref_idc, n0, n1);
        lemma_slice_none();
        reveal(rest_b_out);
    }
    let (frame_num, idr, poc, num_l0, num_l1) = match rest_a_exec(br, ctx, st, sp, pps, is_idr) {
        Ok(t) => t,
        Err(e) => {
            assert(rest_b_out(d, None, st, nal_ref_idc, is_idr, sp, pps, n0, n1).0 =~= out_empty());
            assert(ctx_is(*ctx, out_join(o0, slice_rest_out(d, c0, st, nal_ref_idc, is_idr, sp, pps).0)));
            return Err(e);
        },
    };
    let ghost o1 = ctx_out(*ctx);
    assert(num_l0 == n0 && num_l1 == n1) by {
        let v = SliceVals {
            first_mb_in_slice: 0,
            slice_type: st,
            pic_parameter_set_id: 0,
            frame_num: None,
            idr_pic_id: None,
            pic_order_cnt_lsb: None,
        };
        let _x = slice_pic(d, c0, v, sp, pps, is_idr);
    }
    let ghost c2 = br.cur();
    let rb = rest_b_exec(br, ctx, st, nal_ref_idc, is_idr, sp, pps, num_l0, num_l1);
    assert(rb is Ok ==> br.cur() == slice_rest_out(d, c0, st, nal_ref_idc, is_idr, sp, pps).1);
    assert(ctx_is(*ctx, out_join(o0, slice_rest_out(d, c0, st, nal_ref_idc, is_idr, sp, pps).0)));
    assert forall|v: SliceVals| v.slice_type == st implies {
        let res = #[trigger] rest_result(d, c0, v, nal_ref_idc, is_idr, sp, pps);
        &&& (rb is Ok <==> res is Some)
        &&& rb is Ok ==> (frame_num, idr, poc) == (res->0.frame_num.unwrap(), res->0.idr_pic_id, res->0.pic_order_cnt_lsb)
        &&& rb is Ok ==> res->0.first_mb_in_slice == v.first_mb_in_slice && res->0.slice_type == v.slice_type
            && res->0.pic_parameter_set_id == v.pic_parameter_set_id
    } by {
        let _x = slice_pic(d, c0, v, sp, pps, is_idr);
    }
    match rb {
        Ok(()) => Ok((frame_num, idr, poc)),
        Err(e) => Err(e),
    }
}

fn parse_inner(
    br: &mut BitReader,
    ctx: &mut Ctx,
    nal_ref_idc: u8,
    is_idr: bool,
    sps: Option<Sps>,
    pps: Option<Pps>,
) -> (r: Result<SliceInfo, String>)
    requires
        old(br).wf(),
        old(br).pos() == 0,
        ctx_titled(*old(ctx)),
    ensures
        r is Err ==> slice_error(old(br).data(), r->Err_0@),
        ctx_titled(*final(ctx)),
        r is Ok <==> slice_result(old(br).data(), nal_ref_idc, is_idr, sps, pps) is Some,
        r is Ok ==> info_is(r->Ok_0, slice_result(old(br).data(), nal_ref_idc, is_idr, sps, pps).unwrap()),
        ctx_is(*final(ctx), out_join(ctx_out(*old(ctx)), slice_out(old(br).data(), nal_ref_idc, is_idr, sps, pps).0)),
        r is Ok <==> slice_out(old(br).data(), nal_ref_idc, is_idr, sps, pps).1 is Some,
        r is Ok ==> final(br).cur() == slice_out(old(br).data(), nal_ref_idc, is_idr, sps, pps).1,
{
    proof {
        lemma_slice_errors(old(br).data());
    }
    let ghost d = br.data();
    let ghost o0 = ctx_out(*ctx);
    proof {
        match sps {
            Some(sp) => {
                lemma_rest_none(d, slice_start(d).0.slice_type, nal_ref_idc, is_idr, sp, pps);
            },
            None => {},
        }
    }
    let (first_mb, st, pps_id) = start_exec(br, ctx, sps)?;
    let ghost o1 = ctx_out(*ctx);
    let ghost c1 = br.cur();
    let sp = match sps {
        Some(sp) => sp,
        None => {
            ctx.warnings.push(
                String::from_str(
                    "上下文缺少 SPS，frame_num 及之后的字段未解析（可能 SPS 不在本 NALU 之前）",
                ),
            );
            assert(ctx_is(*ctx, out_join(o0, slice_out(d, nal_ref_idc, is_idr, sps, pps).0)));
            return Ok(
                SliceInfo {
                    first_mb_in_slice: first_mb,
                    slice_type: st,
                    slice_type_name: slice_type_name(st),
                    pic_parameter_set_id: pps_id,
                    frame_num: None,
                    idr_pic_id: None,
                    pic_order_cnt_lsb: None,
                },
            );
        },
    };
    let ghost v = slice_start(d).0;
    let (frame_num, idr, poc) = match rest_exec(br, ctx, st, nal_ref_idc, is_idr, sp, pps) {
        Ok(t) => t,
        Err(e) => {
            assert(rest_result(d, c1, v, nal_ref_idc, is_idr, sp, pps) is None);
            assert(ctx_is(*ctx, out_join(o0, slice_out(d, nal_ref_idc, is_idr, sps, pps).0)));
            return Err(e);
        },
    };
    assert(rest_result(d, c1, v, nal_ref_idc, is_idr, sp, pps) is Some);
    assert(ctx_is(*ctx, out_join(o0, slice_out(d, nal_ref_idc, is_idr, sps, pps).0)));
    Ok(
        SliceInfo {
            first_mb_in_slice: first_mb,
            slice_type: st,
            slice_type_name: slice_type_name(st),
            pic_parameter_set_id: pps_id,
            frame_num: Some(frame_num),
            idr_pic_id: idr,
            pic_order_cnt_lsb: poc,
        },
    )
}

/// Parses a slice header RBSP body (without the NAL unit header), with the
/// SPS and PPS it refers to when known. An error ends the parse with a
/// warning and empty values; the fields read before it stay listed.
#[verifier::rlimit(40)]
pub fn parse_slice_header(
    body: &[u8],
    nal_ref_idc: u8,
    is_idr: bool,
    sps: Option<&Sps>,
    pps: Option<&Pps>,
) -> (r: SliceParse)
    requires
        readable(body@),
    ensures
        titles(r.groups@) == slice_titles(),
        match slice_result(body@, nal_ref_idc, is_idr, opt_copy(sps), opt_copy(pps)) {
            Some(v) => info_is(r.info, v),
            None => info_empty(r.info) && r.warnings@.len() > 0,
        },
        slice_shown(r.groups@, r.warnings@, body@, nal_ref_idc, is_idr, opt_copy(sps), opt_copy(pps)),
{
    let mut br = BitReader::new(body);
    let mut ctx = Ctx {
        g1: FieldGroup::new("切片头 · 基础"),
        g2: FieldGroup::new("切片头 · 图像序号"),
        g3: FieldGroup::new("切片头 · 参考与加权"),
        g4: FieldGroup::new("切片头 · 滤波与量化"),
        warnings: Vec::new(),
    };
    let sps_v: Option<Sps> = match sps {
        Some(s) => Some(*s),
        None => None,
    };
    let pps_v: Option<Pps> = match pps {
        Some(p) => Some(*p),
        None => None,
    };
    let ghost d = body@;
    let ghost o = slice_out(d, nal_ref_idc, is_idr, sps_v, pps_v).0;
    assert(ctx_out(ctx) =~= out_empty());
    let r = match parse_inner(&mut br, &mut ctx, nal_ref_idc, is_idr, sps_v, pps_v) {
        Ok(info) => ctx.finish(info),
        Err(e) => {
            let ghost w = lines_text(ctx.warnings@);
            let r = ctx.bail(e);
            assert(lines_text(r.warnings@) == o.4.push("解析中断："@ + e@));
            r
        },
    };
    assert(groups_view(r.groups@) =~= seq![
        ("切片头 · 基础"@, None::<Seq<char>>, o.0),
        ("切片头 · 图像序号"@, None::<Seq<char>>, o.1),
        ("切片头 · 参考与加权"@, None::<Seq<char>>, o.2),
        ("切片头 · 滤波与量化"@, None::<Seq<char>>, o.3),
    ]);
    r
}

/// The value behind an optional reference.
pub open spec fn opt_copy<T>(o: Option<&T>) -> Option<T> {
    match o {
        Some(v) => Some(*v),
        None => None,
    }
}

} // verus!
