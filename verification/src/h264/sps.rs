//! SPS (sequence parameter set) parsing: high-profile extension, scaling
//! lists and the VUI.
//!
//! The input is the RBSP body (emulation-prevention bytes removed, NAL unit
//! header excluded); field bit positions count from the first byte of the
//! NAL unit (base 8).

use vstd::prelude::*;
use crate::h264::bitreader::{BitReader, rd_bits, rd_flag, rd_ue, rd_se, readable, reader_error};
use crate::h264::common::{
    Field,
    FieldGroup,
    add_field,
    bool_str,
    profile_name,
    level_name,
    chroma_format_name,
    poc_type_name,
    aspect_ratio_name,
    video_format_name,
    labelled,
    chroma_format_label,
    poc_type_label,
    aspect_ratio_label,
    video_format_label,
    desc_text,
    opt_text,
    row_of,
    profile_text,
    level_text,
    rows,
    groups_view,
    group_view,
    body_row,
    flag_text,
    FieldRow,
};
use crate::text::{dec, num_text, int_text, pair_text, push_dec, dec_chars, num_seq, dec_int, pair_seq};

verus! {

broadcast use crate::h264::bitreader::group_readers;

/// The values of an SPS that later parsing depends on, and the picture
/// size computed from them.
#[derive(Debug, Clone, Copy)]
pub struct Sps {
    pub profile_idc: u8,
    pub constraint_set0: bool,
    pub constraint_set1: bool,
    pub constraint_set2: bool,
    pub constraint_set3: bool,
    pub constraint_set4: bool,
    pub constraint_set5: bool,
    pub level_idc: u8,
    pub seq_parameter_set_id: u32,
    pub chroma_format_idc: u32,
    pub separate_colour_plane_flag: bool,
    pub bit_depth_luma_minus8: u32,
    pub bit_depth_chroma_minus8: u32,
    pub log2_max_frame_num_minus4: u32,
    pub pic_order_cnt_type: u32,
    pub log2_max_pic_order_cnt_lsb_minus4: Option<u32>,
    pub delta_pic_order_always_zero_flag: Option<bool>,
    pub max_num_ref_frames: u32,
    pub gaps_in_frame_num_value_allowed_flag: bool,
    pub pic_width_in_mbs_minus1: u32,
    pub pic_height_in_map_units_minus1: u32,
    pub frame_mbs_only_flag: bool,
    pub mb_adaptive_frame_field_flag: Option<bool>,
    pub direct_8x8_inference_flag: bool,
    pub frame_cropping_flag: bool,
    pub frame_crop_left_offset: u32,
    pub frame_crop_right_offset: u32,
    pub frame_crop_top_offset: u32,
    pub frame_crop_bottom_offset: u32,
    pub vui_parameters_present_flag: bool,
    pub num_units_in_tick: Option<u32>,
    pub time_scale: Option<u32>,
    pub fixed_frame_rate_flag: Option<bool>,
    pub aspect_ratio_idc: Option<u32>,
    pub sar_width: Option<u32>,
    pub sar_height: Option<u32>,
    /// Picture width in pixels after cropping (0 when out of range).
    pub width: u32,
    /// Picture height in pixels after cropping (0 when out of range).
    pub height: u32,
}

/// The parsed SPS and its field table.
#[derive(Debug, Clone)]
pub struct SpsParse {
    pub sps: Sps,
    pub groups: Vec<FieldGroup>,
}

/// An SPS with every value zero, false or absent.
pub open spec fn sps_zero() -> Sps {
    Sps {
        profile_idc: 0,
        constraint_set0: false,
        constraint_set1: false,
        constraint_set2: false,
        constraint_set3: false,
        constraint_set4: false,
        constraint_set5: false,
        level_idc: 0,
        seq_parameter_set_id: 0,
        chroma_format_idc: 0,
        separate_colour_plane_flag: false,
        bit_depth_luma_minus8: 0,
        bit_depth_chroma_minus8: 0,
        log2_max_frame_num_minus4: 0,
        pic_order_cnt_type: 0,
        log2_max_pic_order_cnt_lsb_minus4: None,
        delta_pic_order_always_zero_flag: None,
        max_num_ref_frames: 0,
        gaps_in_frame_num_value_allowed_flag: false,
        pic_width_in_mbs_minus1: 0,
        pic_height_in_map_units_minus1: 0,
        frame_mbs_only_flag: false,
        mb_adaptive_frame_field_flag: None,
        direct_8x8_inference_flag: false,
        frame_cropping_flag: false,
        frame_crop_left_offset: 0,
        frame_crop_right_offset: 0,
        frame_crop_top_offset: 0,
        frame_crop_bottom_offset: 0,
        vui_parameters_present_flag: false,
        num_units_in_tick: None,
        time_scale: None,
        fixed_frame_rate_flag: None,
        aspect_ratio_idc: None,
        sar_width: None,
        sar_height: None,
        width: 0,
        height: 0,
    }
}

/// The profiles whose SPS carries the chroma format, bit depths and
/// scaling matrix.
pub open spec fn high_profile(p: u8) -> bool {
    p == 100 || p == 110 || p == 122 || p == 244 || p == 44 || p == 83 || p == 86 || p == 118
        || p == 128 || p == 138 || p == 139 || p == 134 || p == 135
}

fn is_high_profile(p: u8) -> (r: bool)
    ensures
        r == high_profile(p),
{
    p == 100 || p == 110 || p == 122 || p == 244 || p == 44 || p == 83 || p == 86 || p == 118
        || p == 128 || p == 138 || p == 139 || p == 134 || p == 135
}

/// `t` wrapped into the range of an `i32`.
pub open spec fn wrap_i32(t: int) -> int {
    (t + 0x8000_0000) % 0x1_0000_0000 - 0x8000_0000
}

/// The remainder of `w` by 256, with the sign of `w`.
pub open spec fn rem256(w: int) -> int {
    if w >= 0 {
        w % 256
    } else {
        -((-w) % 256)
    }
}

/// `nextScale` of a scaling list: `(lastScale + delta_scale + 256) % 256`
/// in `i32` arithmetic.
pub open spec fn next_scale_of(last: int, delta: int) -> int {
    rem256(wrap_i32(last + delta + 256))
}

/// The cursor after entries `j..size` of a scaling list, with `lastScale`
/// and `nextScale` given: a `delta_scale` is read while `nextScale` is
/// nonzero.
pub open spec fn scaling_list(
    d: Seq<u8>,
    c: Option<int>,
    j: nat,
    size: nat,
    last: int,
    next: int,
) -> Option<int>
    decreases size - j,
{
    if j >= size {
        c
    } else if next != 0 {
        let (delta, c2) = rd_se(d, c);
        let n2 = next_scale_of(last, delta as int);
        scaling_list(
            d,
            c2,
            j + 1,
            size,
            if n2 != 0 {
                n2
            } else {
                last
            },
            n2,
        )
    } else {
        scaling_list(d, c, j + 1, size, last, next)
    }
}

/// The rows of entries `j..size` of a scaling list, with `lastScale` and
/// `nextScale` given: each `delta_scale` read is listed under `prefix`
/// followed by `delta_scale[j]`.
pub open spec fn scaling_rows(
    d: Seq<u8>,
    c: Option<int>,
    j: nat,
    size: nat,
    last: int,
    next: int,
    prefix: Seq<char>,
) -> Seq<FieldRow>
    decreases size - j,
{
    if j >= size {
        seq![]
    } else if next != 0 {
        let (delta, c2) = rd_se(d, c);
        let n2 = next_scale_of(last, delta as int);
        seq![body_row(prefix + num_seq("delta_scale["@, j, "]"@), dec_int(delta as int), c->0, c2->0, ""@)]
            + scaling_rows(
            d,
            c2,
            j + 1,
            size,
            if n2 != 0 {
                n2
            } else {
                last
            },
            n2,
            prefix,
        )
    } else {
        scaling_rows(d, c, j + 1, size, last, next, prefix)
    }
}

/// The size of scaling list `i`.
pub open spec fn list_size(i: nat) -> nat {
    if i < 6 {
        16
    } else {
        64
    }
}

/// The cursor after lists `i..count` of a scaling matrix: a presence flag
/// each, then the list when present.
pub open spec fn scaling_matrix(d: Seq<u8>, c: Option<int>, i: nat, count: nat) -> Option<int>
    decreases count - i,
{
    if i >= count {
        c
    } else {
        let (present, c2) = rd_flag(d, c);
        let c3 = if present {
            scaling_list(d, c2, 0, list_size(i), 8, 8)
        } else {
            c2
        };
        scaling_matrix(d, c3, i + 1, count)
    }
}

/// The cursor after `k` `se(v)` values.
pub open spec fn se_run(d: Seq<u8>, c: Option<int>, k: nat) -> Option<int>
    decreases k,
{
    if k == 0 {
        c
    } else {
        se_run(d, rd_se(d, c).1, (k - 1) as nat)
    }
}

/// `profile_idc`, the constraint flags, the reserved bits, `level_idc` and
/// `seq_parameter_set_id`.
pub open spec fn sps_head(d: Seq<u8>) -> (Sps, Option<int>) {
    let (profile, c) = rd_bits(d, Some(0), 8);
    let (f0, c) = rd_flag(d, c);
    let (f1, c) = rd_flag(d, c);
    let (f2, c) = rd_flag(d, c);
    let (f3, c) = rd_flag(d, c);
    let (f4, c) = rd_flag(d, c);
    let (f5, c) = rd_flag(d, c);
    let (_reserved, c) = rd_bits(d, c, 2);
    let (level, c) = rd_bits(d, c, 8);
    let (id, c) = rd_ue(d, c);
    (
        Sps {
            profile_idc: profile as u8,
            constraint_set0: f0,
            constraint_set1: f1,
            constraint_set2: f2,
            constraint_set3: f3,
            constraint_set4: f4,
            constraint_set5: f5,
            level_idc: level as u8,
            seq_parameter_set_id: id,
            ..sps_zero()
        },
        c,
    )
}

/// The high-profile extension: chroma format, colour planes, bit depths,
/// transform bypass and the scaling matrix. Other profiles imply 4:2:0.
pub open spec fn sps_high(d: Seq<u8>, c: Option<int>, s: Sps) -> (Sps, Option<int>) {
    if high_profile(s.profile_idc) {
        let (chroma, c) = rd_ue(d, c);
        let (sep, c) = if chroma == 3 {
            rd_flag(d, c)
        } else {
            (s.separate_colour_plane_flag, c)
        };
        let (bl, c) = rd_ue(d, c);
        let (bc, c) = rd_ue(d, c);
        let (_bypass, c) = rd_flag(d, c);
        let (scaling, c) = rd_flag(d, c);
        let c = if scaling {
            scaling_matrix(
                d,
                c,
                0,
                if chroma == 3 {
                    12
                } else {
                    8
                },
            )
        } else {
            c
        };
        (
            Sps {
                chroma_format_idc: chroma,
                separate_colour_plane_flag: sep,
                bit_depth_luma_minus8: bl,
                bit_depth_chroma_minus8: bc,
                ..s
            },
            c,
        )
    } else {
        (Sps { chroma_format_idc: 1, ..s }, c)
    }
}

/// `log2_max_frame_num_minus4`, `pic_order_cnt_type` and the fields of the
/// picture-order-count type; more than 255 reference frames in the cycle
/// is refused.
pub open spec fn sps_poc(d: Seq<u8>, c: Option<int>, s: Sps) -> (Sps, Option<int>) {
    let (log2_fn, c) = rd_ue(d, c);
    let (poc, c) = rd_ue(d, c);
    let s = Sps { log2_max_frame_num_minus4: log2_fn, pic_order_cnt_type: poc, ..s };
    if poc == 0 {
        let (l, c) = rd_ue(d, c);
        (Sps { log2_max_pic_order_cnt_lsb_minus4: Some(l), ..s }, c)
    } else if poc == 1 {
        let (z, c) = rd_flag(d, c);
        let (_non_ref, c) = rd_se(d, c);
        let (_top_bottom, c) = rd_se(d, c);
        let (cycle, c) = rd_ue(d, c);
        let c = if cycle > 255 {
            None
        } else {
            se_run(d, c, cycle as nat)
        };
        (Sps { delta_pic_order_always_zero_flag: Some(z), ..s }, c)
    } else {
        (s, c)
    }
}

/// The picture size in pixels before the range check: macroblock counts
/// times 16 (twice the map units for field coding), less the cropping in
/// crop units (2 for chroma-subsampled formats, doubled vertically for
/// field coding), not below zero.
pub open spec fn raw_size(s: Sps) -> (int, int) {
    let w: int = (s.pic_width_in_mbs_minus1 + 1) * 16;
    let h: int = if s.frame_mbs_only_flag {
        (s.pic_height_in_map_units_minus1 + 1) * 16
    } else {
        (s.pic_height_in_map_units_minus1 + 1) * 32
    };
    let cx: int = s.frame_crop_left_offset + s.frame_crop_right_offset;
    let cy: int = s.frame_crop_top_offset + s.frame_crop_bottom_offset;
    let cw: int = if s.chroma_format_idc == 0 {
        cx
    } else {
        2 * cx
    };
    let ch: int = if s.chroma_format_idc == 0 {
        if s.frame_mbs_only_flag {
            cy
        } else {
            2 * cy
        }
    } else {
        if s.frame_mbs_only_flag {
            2 * cy
        } else {
            4 * cy
        }
    };
    if s.frame_cropping_flag {
        (if w > cw {
            w - cw
        } else {
            0
        }, if h > ch {
            h - ch
        } else {
            0
        })
    } else {
        (w, h)
    }
}

/// The picture size of an SPS, from its fields: 16 luma samples per
/// macroblock across, and per map unit down (twice that for field coding),
/// less the cropping, counted in crop units: 1 across for monochrome and 2
/// otherwise, times 2 down for field coding; 0 where the cropping exceeds
/// the size. Sizes beyond 65536 on a side, or empty, give 0 by 0.
pub proof fn lemma_picture_size(s: Sps)
    ensures
        ({
            let fo: int = if s.frame_mbs_only_flag {
                1
            } else {
                0
            };
            let w0: int = 16 * (s.pic_width_in_mbs_minus1 + 1);
            let h0: int = (2 - fo) * 16 * (s.pic_height_in_map_units_minus1 + 1);
            let cux: int = if s.chroma_format_idc == 0 {
                1
            } else {
                2
            };
            let cuy: int = cux * (2 - fo);
            let cw: int = cux * (s.frame_crop_left_offset + s.frame_crop_right_offset);
            let chh: int = cuy * (s.frame_crop_top_offset + s.frame_crop_bottom_offset);
            let w: int = if !s.frame_cropping_flag {
                w0
            } else if cw >= w0 {
                0
            } else {
                w0 - cw
            };
            let h: int = if !s.frame_cropping_flag {
                h0
            } else if chh >= h0 {
                0
            } else {
                h0 - chh
            };
            let sane = 0 < w <= 65536 && 0 < h <= 65536;
            &&& raw_size(s) == (w, h)
            &&& size_sane(s) == sane
            &&& with_size(s).width as int == if sane {
                w
            } else {
                0
            }
            &&& with_size(s).height as int == if sane {
                h
            } else {
                0
            }
        }),
{
    let hh = s.pic_height_in_map_units_minus1 as int + 1;
    let ww = s.pic_width_in_mbs_minus1 as int + 1;
    let cx = s.frame_crop_left_offset as int + s.frame_crop_right_offset as int;
    let cy = s.frame_crop_top_offset as int + s.frame_crop_bottom_offset as int;
    assert(16 * ww == ww * 16) by (nonlinear_arith);
    if s.frame_mbs_only_flag {
        assert((2 - 1) * 16 * hh == hh * 16) by (nonlinear_arith);
    } else {
        assert((2 - 0) * 16 * hh == hh * 32) by (nonlinear_arith);
    }
    if s.chroma_format_idc == 0 {
        assert(1 * cx == cx) by (nonlinear_arith);
        if s.frame_mbs_only_flag {
            assert(1 * (2 - 1) * cy == cy) by (nonlinear_arith);
        } else {
            assert(1 * (2 - 0) * cy == 2 * cy) by (nonlinear_arith);
        }
    } else {
        if s.frame_mbs_only_flag {
            assert(2 * (2 - 1) * cy == 2 * cy) by (nonlinear_arith);
        } else {
            assert(2 * (2 - 0) * cy == 4 * cy) by (nonlinear_arith);
        }
    }
}

/// The picture size is within 1..=65536 on each side.
pub open spec fn size_sane(s: Sps) -> bool {
    let (w, h) = raw_size(s);
    0 < w <= 65536 && 0 < h <= 65536
}

/// Reference frames, picture size in macroblocks, frame/field coding and
/// cropping.
pub open spec fn sps_frame_fields(d: Seq<u8>, c: Option<int>, s: Sps) -> (Sps, Option<int>) {
    let (max_ref, c) = rd_ue(d, c);
    let (gaps, c) = rd_flag(d, c);
    let (w, c) = rd_ue(d, c);
    let (h, c) = rd_ue(d, c);
    let (fo, c) = rd_flag(d, c);
    let (ad, c) = if !fo {
        rd_flag(d, c)
    } else {
        (false, c)
    };
    let (direct, c) = rd_flag(d, c);
    let (crop, c) = rd_flag(d, c);
    let (cl, c) = if crop {
        rd_ue(d, c)
    } else {
        (s.frame_crop_left_offset, c)
    };
    let (cr, c) = if crop {
        rd_ue(d, c)
    } else {
        (s.frame_crop_right_offset, c)
    };
    let (ct, c) = if crop {
        rd_ue(d, c)
    } else {
        (s.frame_crop_top_offset, c)
    };
    let (cb, c) = if crop {
        rd_ue(d, c)
    } else {
        (s.frame_crop_bottom_offset, c)
    };
    let s = Sps {
        max_num_ref_frames: max_ref,
        gaps_in_frame_num_value_allowed_flag: gaps,
        pic_width_in_mbs_minus1: w,
        pic_height_in_map_units_minus1: h,
        frame_mbs_only_flag: fo,
        mb_adaptive_frame_field_flag: if !fo {
            Some(ad)
        } else {
            s.mb_adaptive_frame_field_flag
        },
        direct_8x8_inference_flag: direct,
        frame_cropping_flag: crop,
        frame_crop_left_offset: cl,
        frame_crop_right_offset: cr,
        frame_crop_top_offset: ct,
        frame_crop_bottom_offset: cb,
        ..s
    };
    (s, c)
}

/// The frame fields and the resulting size in pixels (0 by 0 when out of
/// range).
pub open spec fn sps_frame(d: Seq<u8>, c: Option<int>, s: Sps) -> (Sps, Option<int>) {
    (with_size(sps_frame_fields(d, c, s).0), sps_frame_fields(d, c, s).1)
}

/// `s` with its picture size in pixels (0 by 0 when out of range).
pub open spec fn with_size(s: Sps) -> Sps {
    let (rw, rh) = raw_size(s);
    Sps {
        width: if size_sane(s) {
            rw as u32
        } else {
            0
        },
        height: if size_sane(s) {
            rh as u32
        } else {
            0
        },
        ..s
    }
}

/// Every SPS field up to and including `vui_parameters_present_flag`, and
/// the cursor after it (`None` when the SPS does not fit the data or is
/// refused).
pub open spec fn sps_fields(d: Seq<u8>) -> (Sps, Option<int>) {
    let (s, c) = sps_head(d);
    let (s, c) = sps_high(d, c, s);
    let (s, c) = sps_poc(d, c, s);
    let (s, c) = sps_frame(d, c, s);
    let (vui, c) = rd_flag(d, c);
    (Sps { vui_parameters_present_flag: vui, ..s }, c)
}

/// The aspect-ratio part of the VUI: the values it sets, and the cursor.
pub open spec fn vui_aspect(d: Seq<u8>, c: Option<int>, s: Sps) -> (Sps, Option<int>) {
    let (ap, c) = rd_flag(d, c);
    let (idc, c) = if ap {
        rd_bits(d, c, 8)
    } else {
        (0u32, c)
    };
    let s = if ap && c is Some {
        Sps { aspect_ratio_idc: Some(idc), ..s }
    } else {
        s
    };
    let ext = ap && c is Some && idc == 255;
    let (w, c) = if ext {
        rd_bits(d, c, 16)
    } else {
        (0u32, c)
    };
    let (h, c) = if ext {
        rd_bits(d, c, 16)
    } else {
        (0u32, c)
    };
    let s = if ext && c is Some {
        Sps { sar_width: Some(w), sar_height: Some(h), ..s }
    } else {
        s
    };
    (s, c)
}

/// The video-signal fields of the VUI.
pub open spec fn vui_signal(d: Seq<u8>, c: Option<int>) -> Option<int> {
    let c = rd_bits(d, c, 3).1;
    let c = rd_bits(d, c, 1).1;
    let (cd, c) = rd_flag(d, c);
    if cd {
        rd_bits(d, rd_bits(d, rd_bits(d, c, 8).1, 8).1, 8).1
    } else {
        c
    }
}

/// The overscan, video-signal and chroma-location parts of the VUI.
pub open spec fn vui_mid(d: Seq<u8>, c: Option<int>) -> Option<int> {
    let (os, c) = rd_flag(d, c);
    let c = if os {
        rd_bits(d, c, 1).1
    } else {
        c
    };
    let (vs, c) = rd_flag(d, c);
    let c = if vs {
        vui_signal(d, c)
    } else {
        c
    };
    let (cl, c) = rd_flag(d, c);
    if cl {
        rd_ue(d, rd_ue(d, c).1).1
    } else {
        c
    }
}

/// The timing part of the VUI: the values it sets, and the cursor.
pub open spec fn vui_timing(d: Seq<u8>, c: Option<int>, s: Sps) -> (Sps, Option<int>) {
    let (tp, c) = rd_flag(d, c);
    if tp {
        let (nu, c) = rd_bits(d, c, 32);
        let (ts, c) = rd_bits(d, c, 32);
        let (fx, c) = rd_flag(d, c);
        if c is Some {
            (
                Sps {
                    num_units_in_tick: Some(nu),
                    time_scale: Some(ts),
                    fixed_frame_rate_flag: Some(fx),
                    ..s
                },
                c,
            )
        } else {
            (s, c)
        }
    } else {
        (s, c)
    }
}

/// The SPS values that the VUI at cursor `c` sets, kept as far as the VUI
/// is read without error.
pub open spec fn vui_sps(d: Seq<u8>, c: Option<int>, s: Sps) -> Sps {
    let (s1, c1) = vui_aspect(d, c, s);
    vui_timing(d, vui_mid(d, c1), s1).0
}

/// The SPS of an RBSP body: its fields, then what the VUI sets (an error
/// inside the VUI only ends the VUI).
pub open spec fn sps_value(d: Seq<u8>) -> Sps {
    let (s, c) = sps_fields(d);
    if s.vui_parameters_present_flag {
        vui_sps(d, c, s)
    } else {
        s
    }
}

/// The titles of the field groups of an SPS.
pub open spec fn sps_titles(s: Sps) -> Seq<Seq<char>> {
    seq!["SPS · 基础信息"@] + (if high_profile(s.profile_idc) {
        seq!["SPS · 高档次扩展"@]
    } else {
        seq![]
    }) + seq!["SPS · 编码结构"@, "SPS · 图像尺寸"@] + (if s.vui_parameters_present_flag {
        seq!["SPS · VUI 视频可用性信息"@]
    } else {
        seq![]
    })
}

/// The titles of a list of groups.
pub open spec fn titles(gs: Seq<FieldGroup>) -> Seq<Seq<char>> {
    gs.map_values(|g: FieldGroup| g.title@)
}

pub proof fn lemma_se_run_none(d: Seq<u8>, k: nat)
    ensures
        se_run(d, None, k) == None::<int>,
    decreases k,
{
    if k > 0 {
        lemma_se_run_none(d, (k - 1) as nat);
    }
}

pub proof fn lemma_scaling_list_none(d: Seq<u8>, j: nat, size: nat, last: int, next: int)
    ensures
        scaling_list(d, None, j, size, last, next) == None::<int>,
    decreases size - j,
{
    if j < size {
        if next != 0 {
            let n2 = next_scale_of(last, rd_se(d, None).0 as int);
            lemma_scaling_list_none(d, j + 1, size, if n2 != 0 {
                n2
            } else {
                last
            }, n2);
        } else {
            lemma_scaling_list_none(d, j + 1, size, last, next);
        }
    }
}

pub proof fn lemma_scaling_matrix_none(d: Seq<u8>, i: nat, count: nat)
    ensures
        scaling_matrix(d, None, i, count) == None::<int>,
    decreases count - i,
{
    if i < count {
        lemma_scaling_matrix_none(d, i + 1, count);
    }
}

/// A field at `s..e` of the body (8 bits into the NAL unit).
pub(crate) fn fld(g: &mut FieldGroup, name: &str, value: String, s: usize, e: usize, desc: &str)
    requires
        s <= e,
        e + 8 <= usize::MAX,
    ensures
        final(g).title == old(g).title,
        final(g).note == old(g).note,
        rows(final(g).fields@) == rows(old(g).fields@).push(body_row(name@, value@, s as int, e as int, desc@)),
{
    add_field(g, name, value, s, e, 8, desc);
    assert(final(g).fields@ =~= old(g).fields@.push(final(g).fields@.last()));
    assert(rows(final(g).fields@) =~= rows(old(g).fields@).push(body_row(name@, value@, s as int, e as int, desc@)));
}

/// Reads and lists one scaling list of `size` entries; each entry is named
/// `prefix` followed by `delta_scale[j]`.
pub(crate) fn parse_scaling_list(br: &mut BitReader, size: usize, group: &mut FieldGroup, prefix: &str)
    -> (r: Result<(), String>)
    requires
        old(br).wf(),
        size <= 64,
    ensures
        r is Err ==> reader_error(old(br).data(), r->Err_0@),
        final(br).wf(),
        final(br).data() == old(br).data(),
        final(group).title == old(group).title,
        final(group).note == old(group).note,
        r is Ok <==> scaling_list(old(br).data(), old(br).cur(), 0, size as nat, 8, 8) is Some,
        r is Ok ==> rows(final(group).fields@) == rows(old(group).fields@) + scaling_rows(
            old(br).data(),
            old(br).cur(),
            0,
            size as nat,
            8,
            8,
            prefix@,
        ),
        r is Ok ==> final(br).cur() == scaling_list(
            old(br).data(),
            old(br).cur(),
            0,
            size as nat,
            8,
            8,
        ),
{
    let ghost d = br.data();
    let ghost c0 = br.cur();
    let mut last_scale: i64 = 8;
    let mut next_scale: i64 = 8;
    let mut j: usize = 0;
    while j < size
        invariant
            br.wf(),
            br.data() == d,
            old(br).data() == d,
            old(br).cur() == c0,
            group.title == old(group).title,
            group.note == old(group).note,
            rows(group.fields@) + scaling_rows(
                d,
                br.cur(),
                j as nat,
                size as nat,
                last_scale as int,
                next_scale as int,
                prefix@,
            ) == rows(old(group).fields@) + scaling_rows(d, c0, 0, size as nat, 8, 8, prefix@),
            j <= size <= 64,
            -256 < last_scale < 256,
            -256 < next_scale < 256,
            scaling_list(d, c0, 0, size as nat, 8, 8) == scaling_list(
                d,
                br.cur(),
                j as nat,
                size as nat,
                last_scale as int,
                next_scale as int,
            ),
        decreases size - j,
    {
        if next_scale != 0 {
            let s = br.bit_pos();
            let ghost cj = br.cur();
            let delta = match br.read_se() {
                Ok(v) => v,
                Err(e) => {
                    proof {
                        lemma_scaling_list_none(
                            d,
                            (j + 1) as nat,
                            size as nat,
                            if next_scale_of(last_scale as int, rd_se(d, cj).0 as int) != 0 {
                                next_scale_of(last_scale as int, rd_se(d, cj).0 as int)
                            } else {
                                last_scale as int
                            },
                            next_scale_of(last_scale as int, rd_se(d, cj).0 as int),
                        );
                    }
                    return Err(e);
                },
            };
            let t: i64 = last_scale + (delta as i64) + 256;
            let w: i64 = (t + 0x8000_0000) % 0x1_0000_0000 - 0x8000_0000;
            next_scale = if w >= 0 {
                w % 256
            } else {
                -((-w) % 256)
            };
            let mut name = String::from_str(prefix);
            let idx = crate::text::num_text("delta_scale[", j as u64, "]");
            name.append(idx.as_str());
            let ghost before = rows(group.fields@);
            let ghost rest = scaling_rows(
                d,
                br.cur(),
                (j + 1) as nat,
                size as nat,
                if next_scale != 0 {
                    next_scale as int
                } else {
                    last_scale as int
                },
                next_scale as int,
                prefix@,
            );
            fld(group, name.as_str(), crate::text::dec_i(delta as i64), s, br.bit_pos(), "");
            assert(before + (seq![body_row(name@, dec_int(delta as int), cj->0, br.pos(), ""@)] + rest) =~= rows(
                group.fields@,
            ) + rest);
        }
        if next_scale != 0 {
            last_scale = next_scale;
        }
        j += 1;
    }
    Ok(())
}

/// An error text: `a`, the numeral of `v`, then `b`.
fn err_num(a: &str, v: u64, b: &str) -> (r: String)
    ensures
        r@ == num_seq(a@, v as nat, b@),
{
    num_text(a, v, b)
}

/// The message of an HRD with more than 32 CPB specifications.
pub open spec fn cpb_count_text(n: nat) -> Seq<char> {
    num_seq("cpb_cnt_minus1="@, n, " 异常过大（>31），疑似码流损坏"@)
}

/// The message of a picture order count cycle longer than 255 frames.
pub open spec fn cycle_text(n: nat) -> Seq<char> {
    num_seq("num_ref_frames_in_pic_order_cnt_cycle="@, n, " 异常过大（>255），疑似码流损坏"@)
}

/// Whether `e` is a message that reading an SPS from `d` fails with: a
/// reader's, or one of a count out of range.
#[verifier::opaque]
pub open spec fn sps_error(d: Seq<u8>, e: Seq<char>) -> bool {
    ||| reader_error(d, e)
    ||| exists|n: nat| n > 31 && e == cpb_count_text(n)
    ||| exists|n: nat| n > 255 && e == cycle_text(n)
}

/// The messages that reading an SPS fails with.
proof fn lemma_sps_errors(d: Seq<u8>)
    ensures
        forall|e: Seq<char>| reader_error(d, e) ==> #[trigger] sps_error(d, e),
        forall|n: nat| n > 31 ==> #[trigger] sps_error(d, cpb_count_text(n)),
        forall|n: nat| n > 255 ==> #[trigger] sps_error(d, cycle_text(n)),
{
    reveal(sps_error);
    assert forall|n: nat| n > 31 implies #[trigger] sps_error(d, cpb_count_text(n)) by {
        reveal(sps_error);
    }
    assert forall|n: nat| n > 255 implies #[trigger] sps_error(d, cycle_text(n)) by {
        reveal(sps_error);
    }
}

/// The row `r` when the read that ends at `c` succeeded, else none.
pub open spec fn row_when(c: Option<int>, r: FieldRow) -> Seq<FieldRow> {
    if c is Some {
        seq![r]
    } else {
        seq![]
    }
}

/// The rows of CPB specifications `i..n` of an HRD read from `c`, as far as
/// they are read, and the cursor after them.
pub open spec fn cpb_rows(d: Seq<u8>, c: Option<int>, i: nat, n: nat, prefix: Seq<char>) -> (
    Seq<FieldRow>,
    Option<int>,
)
    decreases n - i,
{
    if i >= n {
        (seq![], c)
    } else {
        let (rate, c1) = rd_ue(d, c);
        let (size, c2) = rd_ue(d, c1);
        let (cbr, c3) = rd_bits(d, c2, 1);
        let r = row_when(
            c3,
            body_row(
                prefix + num_seq(".cpb["@, i, "]"@),
                num_seq("rate-1="@, rate as nat, ", size-1="@) + dec_chars(size as nat) + ", cbr="@ + dec_chars(
                    cbr as nat,
                ),
                c->0,
                c3->0,
                ""@,
            ),
        );
        let (rest, ce) = cpb_rows(d, c3, i + 1, n, prefix);
        (r + rest, ce)
    }
}

/// The name of the `k`-th delay-length field of an HRD.
pub open spec fn delay_name(k: nat) -> Seq<char> {
    if k == 0 {
        "initial_cpb_removal_delay_length_minus1"@
    } else if k == 1 {
        "cpb_removal_delay_length_minus1"@
    } else if k == 2 {
        "dpb_output_delay_length_minus1"@
    } else {
        "time_offset_length"@
    }
}

/// The rows of delay-length fields `k..4` of an HRD read from `c`, as far
/// as they are read, and the cursor after them.
pub open spec fn delay_rows(d: Seq<u8>, c: Option<int>, k: nat, prefix: Seq<char>) -> (Seq<FieldRow>, Option<int>)
    decreases 4 - k,
{
    if k >= 4 {
        (seq![], c)
    } else {
        let (v, c1) = rd_bits(d, c, 5);
        let r = row_when(c1, body_row(prefix + "."@ + delay_name(k), dec_chars(v as nat), c->0, c1->0, ""@));
        let (rest, ce) = delay_rows(d, c1, k + 1, prefix);
        (r + rest, ce)
    }
}

/// The rows of the CPB count and the two scales of an HRD read from `c`, as
/// far as they are read.
pub open spec fn hrd_head_rows(d: Seq<u8>, c: Option<int>, prefix: Seq<char>) -> Seq<FieldRow> {
    let (cnt, c1) = rd_ue(d, c);
    let (brs, c2) = rd_bits(d, c1, 4);
    let (css, c3) = rd_bits(d, c2, 4);
    row_when(c1, body_row(prefix + ".cpb_cnt_minus1"@, dec_chars(cnt as nat), c->0, c1->0, "CPB 个数-1"@))
        + row_when(c2, body_row(prefix + ".bit_rate_scale"@, dec_chars(brs as nat), c1->0, c2->0, "码率上标（×6）"@))
        + row_when(c3, body_row(prefix + ".cpb_size_scale"@, dec_chars(css as nat), c2->0, c3->0, "缓冲大小上标（×4）"@))
}

/// The rows of HRD parameters read from `c`, as far as they are read, and
/// the cursor after them (`None` when they do not fit the data or hold
/// more than 32 CPB specifications).
#[verifier::opaque]
pub open spec fn hrd_rows(d: Seq<u8>, c: Option<int>, prefix: Seq<char>) -> (Seq<FieldRow>, Option<int>) {
    let (cnt, c1) = rd_ue(d, c);
    let (brs, c2) = rd_bits(d, c1, 4);
    let (css, c3) = rd_bits(d, c2, 4);
    let head = hrd_head_rows(d, c, prefix);
    if c3 is Some && cnt > 31 {
        (head, None)
    } else {
        let (cr, c4) = cpb_rows(d, c3, 0, (cnt + 1) as nat, prefix);
        let (dr, c5) = delay_rows(d, c4, 0, prefix);
        (head + cr + dr, c5)
    }
}

pub proof fn lemma_cpb_rows_none(d: Seq<u8>, i: nat, n: nat, prefix: Seq<char>)
    ensures
        cpb_rows(d, None, i, n, prefix) == (Seq::<FieldRow>::empty(), None::<int>),
    decreases n - i,
{
    if i < n {
        lemma_cpb_rows_none(d, i + 1, n, prefix);
        assert(cpb_rows(d, None, i, n, prefix).0 =~= Seq::<FieldRow>::empty());
    }
}

pub proof fn lemma_delay_rows_none(d: Seq<u8>, k: nat, prefix: Seq<char>)
    ensures
        delay_rows(d, None, k, prefix) == (Seq::<FieldRow>::empty(), None::<int>),
    decreases 4 - k,
{
    if k < 4 {
        lemma_delay_rows_none(d, k + 1, prefix);
        assert(delay_rows(d, None, k, prefix).0 =~= Seq::<FieldRow>::empty());
    }
}

/// The name of the `k`-th delay-length field of an HRD.
fn delay_field_name(k: usize) -> (r: &'static str)
    requires
        k < 4,
    ensures
        r@ == delay_name(k as nat),
{
    if k == 0 {
        "initial_cpb_removal_delay_length_minus1"
    } else if k == 1 {
        "cpb_removal_delay_length_minus1"
    } else if k == 2 {
        "dpb_output_delay_length_minus1"
    } else {
        "time_offset_length"
    }
}

/// Reads and lists HRD parameters (at most 32 CPB specifications).
fn parse_hrd(br: &mut BitReader, gv: &mut FieldGroup, prefix: &str) -> (r: Result<(), String>)
    requires
        old(br).wf(),
    ensures
        r is Err ==> sps_error(old(br).data(), r->Err_0@),
        final(br).wf(),
        final(br).data() == old(br).data(),
        final(gv).title == old(gv).title,
        final(gv).note == old(gv).note,
        rows(final(gv).fields@) == rows(old(gv).fields@) + hrd_rows(old(br).data(), old(br).cur(), prefix@).0,
        r is Ok <==> hrd_rows(old(br).data(), old(br).cur(), prefix@).1 is Some,
        r is Ok ==> final(br).cur() == hrd_rows(old(br).data(), old(br).cur(), prefix@).1,
{
    proof {
        lemma_sps_errors(old(br).data());
    }
    let ghost d = br.data();
    let ghost c0 = br.cur();
    let ghost p = prefix@;
    let ghost base = rows(gv.fields@);
    proof {
        reveal(hrd_rows);
    }
    let s0 = br.bit_pos();
    let cpb_cnt_minus1 = match br.read_ue() {
        Ok(v) => v,
        Err(e) => {
            proof {
                lemma_cpb_rows_none(d, 0, (rd_ue(d, c0).0 + 1) as nat, p);
                lemma_delay_rows_none(d, 0, p);
                assert(rows(gv.fields@) =~= base + hrd_rows(d, c0, p).0);
            }
            return Err(e);
        },
    };
    fld(gv, crate::text::cat(prefix, ".cpb_cnt_minus1").as_str(), dec(cpb_cnt_minus1 as u64), s0, br.bit_pos(), "CPB 个数-1");
    let s1 = br.bit_pos();
    let bit_rate_scale = match br.read_bits(4) {
        Ok(v) => v,
        Err(e) => {
            proof {
                lemma_cpb_rows_none(d, 0, (cpb_cnt_minus1 + 1) as nat, p);
                lemma_delay_rows_none(d, 0, p);
                assert(rows(gv.fields@) =~= base + hrd_rows(d, c0, p).0);
            }
            return Err(e);
        },
    };
    fld(gv, crate::text::cat(prefix, ".bit_rate_scale").as_str(), dec(bit_rate_scale as u64), s1, br.bit_pos(), "码率上标（×6）");
    let s2 = br.bit_pos();
    let cpb_size_scale = match br.read_bits(4) {
        Ok(v) => v,
        Err(e) => {
            proof {
                lemma_cpb_rows_none(d, 0, (cpb_cnt_minus1 + 1) as nat, p);
                lemma_delay_rows_none(d, 0, p);
                assert(rows(gv.fields@) =~= base + hrd_rows(d, c0, p).0);
            }
            return Err(e);
        },
    };
    fld(gv, crate::text::cat(prefix, ".cpb_size_scale").as_str(), dec(cpb_size_scale as u64), s2, br.bit_pos(), "缓冲大小上标（×4）");
    let ghost c3 = br.cur();
    let ghost head = rows(gv.fields@);
    if cpb_cnt_minus1 > 31 {
        assert(rows(gv.fields@) =~= base + hrd_rows(d, c0, p).0);
        assert(sps_error(br.data(), cpb_count_text(cpb_cnt_minus1 as nat)));
        return Err(err_num("cpb_cnt_minus1=", cpb_cnt_minus1 as u64, " 异常过大（>31），疑似码流损坏"));
    }
    let ghost n: nat = (cpb_cnt_minus1 + 1) as nat;
    assert(head =~= base + hrd_head_rows(d, c0, p));
    assert(head + cpb_rows(d, c3, 0, n, p).0 + delay_rows(d, cpb_rows(d, c3, 0, n, p).1, 0, p).0 =~= base
        + hrd_rows(d, c0, p).0);
    let mut i: u32 = 0;
    while i <= cpb_cnt_minus1
        invariant
            br.wf(),
            br.data() == d,
            old(br).data() == d,
            gv.title == old(gv).title,
            gv.note == old(gv).note,
            cpb_cnt_minus1 <= 31,
            n == cpb_cnt_minus1 + 1,
            i <= cpb_cnt_minus1 + 1,
            p == prefix@,
            rows(gv.fields@) + cpb_rows(d, br.cur(), i as nat, n, p).0 == head + cpb_rows(d, c3, 0, n, p).0,
            cpb_rows(d, br.cur(), i as nat, n, p).1 == cpb_rows(d, c3, 0, n, p).1,
            head + cpb_rows(d, c3, 0, n, p).0 + delay_rows(d, cpb_rows(d, c3, 0, n, p).1, 0, p).0 == base
                + hrd_rows(d, c0, p).0,
            delay_rows(d, cpb_rows(d, c3, 0, n, p).1, 0, p).1 == hrd_rows(d, c0, p).1,
            base == rows(old(gv).fields@),
            c0 == old(br).cur(),
        decreases cpb_cnt_minus1 + 1 - i,
    {
        proof {
            lemma_sps_errors(br.data());
        }
        let ghost ci = br.cur();
        let ghost before = rows(gv.fields@);
        let s = br.bit_pos();
        let rate = match br.read_ue() {
            Ok(v) => v,
            Err(e) => {
                proof {
                    lemma_cpb_rows_none(d, (i + 1) as nat, n, p);
                    lemma_delay_rows_none(d, 0, p);
                    assert(before + cpb_rows(d, ci, i as nat, n, p).0 =~= before);
                    assert(rows(gv.fields@) =~= base + hrd_rows(d, c0, p).0);
                }
                return Err(e);
            },
        };
        let size = match br.read_ue() {
            Ok(v) => v,
            Err(e) => {
                proof {
                    lemma_cpb_rows_none(d, (i + 1) as nat, n, p);
                    lemma_delay_rows_none(d, 0, p);
                    assert(before + cpb_rows(d, ci, i as nat, n, p).0 =~= before);
                    assert(rows(gv.fields@) =~= base + hrd_rows(d, c0, p).0);
                }
                return Err(e);
            },
        };
        let cbr = match br.read_bit() {
            Ok(v) => v,
            Err(e) => {
                proof {
                    lemma_cpb_rows_none(d, (i + 1) as nat, n, p);
                    lemma_delay_rows_none(d, 0, p);
                    assert(before + cpb_rows(d, ci, i as nat, n, p).0 =~= before);
                    assert(rows(gv.fields@) =~= base + hrd_rows(d, c0, p).0);
                }
                return Err(e);
            },
        };
        let mut v = crate::text::num_text("rate-1=", rate as u64, ", size-1=");
        push_dec(&mut v, size as u64);
        v.append(", cbr=");
        push_dec(&mut v, cbr as u64);
        let mut name = String::from_str(prefix);
        name.append(crate::text::num_text(".cpb[", i as u64, "]").as_str());
        fld(gv, name.as_str(), v, s, br.bit_pos(), "");
        assert(before + cpb_rows(d, ci, i as nat, n, p).0 =~= rows(gv.fields@) + cpb_rows(
            d,
            br.cur(),
            (i + 1) as nat,
            n,
            p,
        ).0);
        i += 1;
    }
    let ghost c4 = br.cur();
    let ghost mid = rows(gv.fields@);
    assert(mid =~= head + cpb_rows(d, c3, 0, n, p).0);
    assert(mid + delay_rows(d, c4, 0, p).0 =~= base + hrd_rows(d, c0, p).0);
    let mut k: usize = 0;
    while k < 4
        invariant
            br.wf(),
            br.data() == d,
            old(br).data() == d,
            gv.title == old(gv).title,
            gv.note == old(gv).note,
            k <= 4,
            p == prefix@,
            rows(gv.fields@) + delay_rows(d, br.cur(), k as nat, p).0 == mid + delay_rows(d, c4, 0, p).0,
            delay_rows(d, br.cur(), k as nat, p).1 == delay_rows(d, c4, 0, p).1,
            mid + delay_rows(d, c4, 0, p).0 == base + hrd_rows(d, c0, p).0,
            delay_rows(d, c4, 0, p).1 == hrd_rows(d, c0, p).1,
            base == rows(old(gv).fields@),
            c0 == old(br).cur(),
        decreases 4 - k,
    {
        proof {
            lemma_sps_errors(br.data());
        }
        let ghost ck = br.cur();
        let ghost before = rows(gv.fields@);
        let s = br.bit_pos();
        let v = match br.read_bits(5) {
            Ok(v) => v,
            Err(e) => {
                proof {
                    lemma_delay_rows_none(d, (k + 1) as nat, p);
                    assert(before + delay_rows(d, ck, k as nat, p).0 =~= before);
                    assert(rows(gv.fields@) =~= base + hrd_rows(d, c0, p).0);
                }
                return Err(e);
            },
        };
        let mut name = String::from_str(prefix);
        name.append(".");
        name.append(delay_field_name(k));
        fld(gv, name.as_str(), dec(v as u64), s, br.bit_pos(), "");
        assert(before + delay_rows(d, ck, k as nat, p).0 =~= rows(gv.fields@) + delay_rows(
            d,
            br.cur(),
            (k + 1) as nat,
            p,
        ).0);
        k += 1;
    }
    assert(rows(gv.fields@) =~= base + hrd_rows(d, c0, p).0);
    Ok(())
}

/// Reads a flag and lists it.
pub(crate) fn read_flag_field(br: &mut BitReader, g: &mut FieldGroup, name: &str, desc: &str) -> (r: Result<
    bool,
    String,
>)
    requires
        old(br).wf(),
    ensures
        final(br).wf(),
        final(br).data() == old(br).data(),
        final(g).title == old(g).title,
        final(g).note == old(g).note,
        r is Ok <==> rd_flag(old(br).data(), old(br).cur()).1 is Some,
        r is Ok ==> r->Ok_0 == rd_flag(old(br).data(), old(br).cur()).0 && final(br).cur()
            == rd_flag(old(br).data(), old(br).cur()).1,
        r is Err ==> final(g).fields@ == old(g).fields@ && reader_error(old(br).data(), r->Err_0@),
        r is Ok ==> rows(final(g).fields@) == rows(old(g).fields@).push(
            body_row(
                name@,
                flag_text(r->Ok_0),
                old(br).cur()->0,
                rd_flag(old(br).data(), old(br).cur()).1->0,
                desc@,
            ),
        ),
{
    let s = br.bit_pos();
    let v = br.read_bit()? == 1;
    fld(g, name, bool_str(v), s, br.bit_pos(), desc);
    Ok(v)
}

/// Reads a `ue(v)` and lists it.
pub(crate) fn read_ue_field(br: &mut BitReader, g: &mut FieldGroup, name: &str, desc: &str) -> (r: Result<
    u32,
    String,
>)
    requires
        old(br).wf(),
    ensures
        r is Err ==> reader_error(old(br).data(), r->Err_0@),
        final(br).wf(),
        final(br).data() == old(br).data(),
        final(g).title == old(g).title,
        final(g).note == old(g).note,
        r is Ok <==> rd_ue(old(br).data(), old(br).cur()).1 is Some,
        r is Ok ==> r->Ok_0 == rd_ue(old(br).data(), old(br).cur()).0 && final(br).cur()
            == rd_ue(old(br).data(), old(br).cur()).1,
        r is Err ==> final(g).fields@ == old(g).fields@,
        r is Ok ==> rows(final(g).fields@) == rows(old(g).fields@).push(
            body_row(
                name@,
                dec_chars(r->Ok_0 as nat),
                old(br).cur()->0,
                rd_ue(old(br).data(), old(br).cur()).1->0,
                desc@,
            ),
        ),
{
    let s = br.bit_pos();
    let v = br.read_ue()?;
    fld(g, name, dec(v as u64), s, br.bit_pos(), desc);
    Ok(v)
}

/// The rows of the base group of an SPS.
#[verifier::opaque]
pub open spec fn sps_head_rows(d: Seq<u8>) -> Seq<FieldRow> {
    let (profile, c1) = rd_bits(d, Some(0), 8);
    let (f0, c2) = rd_flag(d, c1);
    let (f1, c3) = rd_flag(d, c2);
    let (f2, c4) = rd_flag(d, c3);
    let (f3, c5) = rd_flag(d, c4);
    let (f4, c6) = rd_flag(d, c5);
    let (f5, c7) = rd_flag(d, c6);
    let (reserved, c8) = rd_bits(d, c7, 2);
    let (level, c9) = rd_bits(d, c8, 8);
    let (id, c10) = rd_ue(d, c9);
    seq![
        body_row("profile_idc"@, profile_text(profile as u8), 0, c1->0, "档次：决定允许使用的编码工具"@),
        body_row("constraint_set0_flag"@, flag_text(f0), c1->0, c2->0, ""@),
        body_row(
            "constraint_set1_flag"@,
            flag_text(f1),
            c2->0,
            c3->0,
            "1 时为 Constrained Baseline/Main（嵌入式解码器常要求）"@,
        ),
        body_row("constraint_set2_flag"@, flag_text(f2), c3->0, c4->0, ""@),
        body_row("constraint_set3_flag"@, flag_text(f3), c4->0, c5->0, "与 Level 1b 有关"@),
        body_row("constraint_set4_flag"@, flag_text(f4), c5->0, c6->0, ""@),
        body_row("constraint_set5_flag"@, flag_text(f5), c6->0, c7->0, "1 表示码流仅含帧（无场）"@),
        body_row("reserved_zero_2bits"@, dec_chars(reserved as nat), c7->0, c8->0, ""@),
        body_row("level_idc"@, level_text(level as u8), c8->0, c9->0, "级别：分辨率/码率上限"@),
        body_row("seq_parameter_set_id"@, dec_chars(id as nat), c9->0, c10->0, ""@),
    ]
}

fn sps_head_exec(br: &mut BitReader, g1: &mut FieldGroup) -> (r: Result<Sps, String>)
    requires
        old(br).wf(),
        old(br).pos() == 0,
    ensures
        r is Err ==> sps_error(old(br).data(), r->Err_0@),
        final(br).wf(),
        final(br).data() == old(br).data(),
        final(g1).title == old(g1).title,
        r is Ok <==> sps_head(old(br).data()).1 is Some,
        r is Ok ==> r->Ok_0 == sps_head(old(br).data()).0 && final(br).cur() == sps_head(
            old(br).data(),
        ).1,
        final(g1).note == old(g1).note,
        r is Ok ==> rows(final(g1).fields@) == rows(old(g1).fields@) + sps_head_rows(old(br).data()),
{
    proof {
        lemma_sps_errors(old(br).data());
    }
    let s = br.bit_pos();
    let profile_idc = br.read_bits(8)? as u8;
    fld(g1, "profile_idc", profile_name(profile_idc), s, br.bit_pos(), "档次：决定允许使用的编码工具");
    let f0 = read_flag_field(br, g1, "constraint_set0_flag", "")?;
    let f1 = read_flag_field(
        br,
        g1,
        "constraint_set1_flag",
        "1 时为 Constrained Baseline/Main（嵌入式解码器常要求）",
    )?;
    let f2 = read_flag_field(br, g1, "constraint_set2_flag", "")?;
    let f3 = read_flag_field(br, g1, "constraint_set3_flag", "与 Level 1b 有关")?;
    let f4 = read_flag_field(br, g1, "constraint_set4_flag", "")?;
    let f5 = read_flag_field(br, g1, "constraint_set5_flag", "1 表示码流仅含帧（无场）")?;
    let s = br.bit_pos();
    let reserved = br.read_bits(2)?;
    fld(g1, "reserved_zero_2bits", dec(reserved as u64), s, br.bit_pos(), "");
    let s = br.bit_pos();
    let level_idc = br.read_bits(8)? as u8;
    fld(g1, "level_idc", level_name(level_idc), s, br.bit_pos(), "级别：分辨率/码率上限");
    let sps_id = read_ue_field(br, g1, "seq_parameter_set_id", "")?;
    assert(rows(g1.fields@) =~= rows(old(g1).fields@) + sps_head_rows(old(br).data())) by {
        reveal(sps_head_rows);
    }
    Ok(
        Sps {
            profile_idc,
            constraint_set0: f0,
            constraint_set1: f1,
            constraint_set2: f2,
            constraint_set3: f3,
            constraint_set4: f4,
            constraint_set5: f5,
            level_idc,
            seq_parameter_set_id: sps_id,
            chroma_format_idc: 0,
            separate_colour_plane_flag: false,
            bit_depth_luma_minus8: 0,
            bit_depth_chroma_minus8: 0,
            log2_max_frame_num_minus4: 0,
            pic_order_cnt_type: 0,
            log2_max_pic_order_cnt_lsb_minus4: None,
            delta_pic_order_always_zero_flag: None,
            max_num_ref_frames: 0,
            gaps_in_frame_num_value_allowed_flag: false,
            pic_width_in_mbs_minus1: 0,
            pic_height_in_map_units_minus1: 0,
            frame_mbs_only_flag: false,
            mb_adaptive_frame_field_flag: None,
            direct_8x8_inference_flag: false,
            frame_cropping_flag: false,
            frame_crop_left_offset: 0,
            frame_crop_right_offset: 0,
            frame_crop_top_offset: 0,
            frame_crop_bottom_offset: 0,
            vui_parameters_present_flag: false,
            num_units_in_tick: None,
            time_scale: None,
            fixed_frame_rate_flag: None,
            aspect_ratio_idc: None,
            sar_width: None,
            sar_height: None,
            width: 0,
            height: 0,
        },
    )
}

/// The rows of lists `i..count` of an SPS scaling matrix: each presence
/// flag, then the entries of the list when present, named after the list.
#[verifier::opaque]
pub open spec fn sps_matrix_rows(d: Seq<u8>, c: Option<int>, i: nat, count: nat) -> Seq<FieldRow>
    decreases count - i,
{
    if i >= count {
        seq![]
    } else {
        let (present, c2) = rd_flag(d, c);
        let flag = body_row(num_seq("seq_scaling_list_present_flag["@, i, "]"@), flag_text(present), c->0, c2->0, ""@);
        if present {
            seq![flag] + scaling_rows(d, c2, 0, list_size(i), 8, 8, num_seq("list"@, i, "."@)) + sps_matrix_rows(
                d,
                scaling_list(d, c2, 0, list_size(i), 8, 8),
                i + 1,
                count,
            )
        } else {
            seq![flag] + sps_matrix_rows(d, c2, i + 1, count)
        }
    }
}

/// The rows of the high-profile extension of an SPS read from `c`; none
/// for other profiles.
#[verifier::opaque]
pub open spec fn sps_high_rows(d: Seq<u8>, c: Option<int>, s: Sps) -> Seq<FieldRow> {
    if !high_profile(s.profile_idc) {
        seq![]
    } else {
        let (chroma, c1) = rd_ue(d, c);
        let r_chroma = body_row(
            "chroma_format_idc"@,
            labelled(dec_chars(chroma as nat), chroma_format_label(chroma)),
            c->0,
            c1->0,
            "色度采样（高档次才显式出现）"@,
        );
        let (sep, c2) = if chroma == 3 {
            rd_flag(d, c1)
        } else {
            (false, c1)
        };
        let r_sep = if chroma == 3 {
            seq![body_row("separate_colour_plane_flag"@, flag_text(sep), c1->0, c2->0, ""@)]
        } else {
            seq![]
        };
        let (bl, c3) = rd_ue(d, c2);
        let (bc, c4) = rd_ue(d, c3);
        let (bypass, c5) = rd_flag(d, c4);
        let (sc, c6) = rd_flag(d, c5);
        let rest = seq![
            body_row("bit_depth_luma/chroma_minus8"@, pair_seq(bl as nat, "/"@, bc as nat), c2->0, c4->0, "位深-8（10bit 时为 2）"@),
            body_row("qpprime_y_zero_transform_bypass_flag"@, flag_text(bypass), c4->0, c5->0, ""@),
            body_row("seq_scaling_matrix_present_flag"@, flag_text(sc), c5->0, c6->0, ""@),
        ];
        let m = if sc {
            sps_matrix_rows(
                d,
                c6,
                0,
                if chroma == 3 {
                    12
                } else {
                    8
                },
            )
        } else {
            seq![]
        };
        seq![r_chroma] + r_sep + rest + m
    }
}

/// Reads and lists the scaling matrix: `count` presence flags, each
/// followed by its list when present.
#[verifier::rlimit(30)]
fn parse_scaling_matrix(br: &mut BitReader, g2: &mut FieldGroup, count: usize) -> (r: Result<
    (),
    String,
>)
    requires
        old(br).wf(),
        count == 8 || count == 12,
    ensures
        r is Err ==> sps_error(old(br).data(), r->Err_0@),
        final(br).wf(),
        final(br).data() == old(br).data(),
        final(g2).title == old(g2).title,
        r is Ok <==> scaling_matrix(old(br).data(), old(br).cur(), 0, count as nat) is Some,
        r is Ok ==> final(br).cur() == scaling_matrix(old(br).data(), old(br).cur(), 0, count as nat),
        final(g2).note == old(g2).note,
        r is Ok ==> rows(final(g2).fields@) == rows(old(g2).fields@) + sps_matrix_rows(
            old(br).data(),
            old(br).cur(),
            0,
            count as nat,
        ),
{
    proof {
        lemma_sps_errors(old(br).data());
    }
    let ghost d = br.data();
    let ghost cm = br.cur();
    let mut i: usize = 0;
    while i < count
        invariant
            br.wf(),
            br.data() == d,
            old(br).data() == d,
            old(br).cur() == cm,
            g2.title == old(g2).title,
            g2.note == old(g2).note,
            rows(g2.fields@) + sps_matrix_rows(d, br.cur(), i as nat, count as nat) == rows(old(g2).fields@)
                + sps_matrix_rows(d, cm, 0, count as nat),
            i <= count,
            count == 8 || count == 12,
            scaling_matrix(d, cm, 0, count as nat) == scaling_matrix(
                d,
                br.cur(),
                i as nat,
                count as nat,
            ),
        decreases count - i,
    {
        proof {
            lemma_sps_errors(br.data());
        }
        let ghost ci = br.cur();
        let ghost rows0 = rows(g2.fields@);
        let name = crate::text::num_text("seq_scaling_list_present_flag[", i as u64, "]");
        let present = match read_flag_field(br, g2, name.as_str(), "") {
            Ok(v) => v,
            Err(e) => {
                proof {
                    lemma_scaling_matrix_none(d, (i + 1) as nat, count as nat);
                }
                return Err(e);
            },
        };
        if present {
            let size: usize = if i < 6 {
                16
            } else {
                64
            };
            let list_name = crate::text::num_text("list", i as u64, ".");
            match parse_scaling_list(br, size, g2, list_name.as_str()) {
                Ok(()) => {},
                Err(e) => {
                    proof {
                        lemma_scaling_matrix_none(d, (i + 1) as nat, count as nat);
                    }
                    return Err(e);
                },
            }
        }
        reveal(sps_matrix_rows);
        assert(rows0 + sps_matrix_rows(d, ci, i as nat, count as nat) =~= rows(g2.fields@) + sps_matrix_rows(
            d,
            br.cur(),
            (i + 1) as nat,
            count as nat,
        ));
        i += 1;
    }
    assert(rows(g2.fields@) =~= rows(g2.fields@) + sps_matrix_rows(d, br.cur(), i as nat, count as nat)) by {
        reveal(sps_matrix_rows);
    }
    Ok(())
}

#[verifier::rlimit(30)]
fn sps_high_exec(br: &mut BitReader, sps: &mut Sps, g2: &mut FieldGroup) -> (r: Result<
    (),
    String,
>)
    requires
        old(br).wf(),
    ensures
        r is Err ==> sps_error(old(br).data(), r->Err_0@),
        final(br).wf(),
        final(br).data() == old(br).data(),
        final(g2).title == old(g2).title,
        r is Ok <==> sps_high(old(br).data(), old(br).cur(), *old(sps)).1 is Some,
        r is Ok ==> *final(sps) == sps_high(old(br).data(), old(br).cur(), *old(sps)).0
            && final(br).cur() == sps_high(old(br).data(), old(br).cur(), *old(sps)).1,
        final(g2).note == old(g2).note,
        r is Ok ==> rows(final(g2).fields@) == rows(old(g2).fields@) + sps_high_rows(
            old(br).data(),
            old(br).cur(),
            *old(sps),
        ),
{
    proof {
        lemma_sps_errors(old(br).data());
    }
    let ghost d = br.data();
    if !is_high_profile(sps.profile_idc) {
        *sps = Sps { chroma_format_idc: 1, ..*sps };
        assert(rows(g2.fields@) =~= rows(old(g2).fields@) + sps_high_rows(d, old(br).cur(), *old(sps))) by {
            reveal(sps_high_rows);
        }
        return Ok(());
    }
    let s = br.bit_pos();
    let chroma = br.read_ue()?;
    fld(g2, "chroma_format_idc", chroma_format_name(chroma), s, br.bit_pos(), "色度采样（高档次才显式出现）");
    let sep = if chroma == 3 {
        read_flag_field(br, g2, "separate_colour_plane_flag", "")?
    } else {
        sps.separate_colour_plane_flag
    };
    let s = br.bit_pos();
    let bd_l = br.read_ue()?;
    let bd_c = br.read_ue()?;
    fld(g2, "bit_depth_luma/chroma_minus8", pair_text(bd_l as u64, "/", bd_c as u64), s, br.bit_pos(), "位深-8（10bit 时为 2）");
    let _bypass = read_flag_field(br, g2, "qpprime_y_zero_transform_bypass_flag", "")?;
    let scaling_present = read_flag_field(br, g2, "seq_scaling_matrix_present_flag", "")?;
    if scaling_present {
        let count: usize = if chroma == 3 {
            12
        } else {
            8
        };
        parse_scaling_matrix(br, g2, count)?;
    }
    assert(rows(g2.fields@) =~= rows(old(g2).fields@) + sps_high_rows(d, old(br).cur(), *old(sps))) by {
        reveal(sps_high_rows);
    }
    *sps = Sps {
        chroma_format_idc: chroma,
        separate_colour_plane_flag: sep,
        bit_depth_luma_minus8: bd_l,
        bit_depth_chroma_minus8: bd_c,
        ..*sps
    };
    Ok(())
}

/// The rows of `offset_for_ref_frame[i..n]` read from `c`.
pub open spec fn offset_rows(d: Seq<u8>, c: Option<int>, i: nat, n: nat) -> Seq<FieldRow>
    decreases n - i,
{
    if i >= n {
        seq![]
    } else {
        let (v, c2) = rd_se(d, c);
        seq![body_row(num_seq("offset_for_ref_frame["@, i, "]"@), dec_int(v as int), c->0, c2->0, ""@)]
            + offset_rows(d, c2, i + 1, n)
    }
}

/// The rows of the picture-order part of an SPS read from `c`.
#[verifier::opaque]
pub open spec fn sps_poc_rows(d: Seq<u8>, c: Option<int>) -> Seq<FieldRow> {
    let (l2, c1) = rd_ue(d, c);
    let (poc, c2) = rd_ue(d, c1);
    let head = seq![
        body_row(
            "log2_max_frame_num_minus4"@,
            dec_chars(l2 as nat),
            c->0,
            c1->0,
            num_seq("frame_num 位宽 = "@, (l2 + 4) as nat, ""@),
        ),
        body_row(
            "pic_order_cnt_type"@,
            labelled(dec_chars(poc as nat), poc_type_label(poc)),
            c1->0,
            c2->0,
            "POC 计算方式（部分硬件仅支持特定类型）"@,
        ),
    ];
    if poc == 0 {
        let (l, c3) = rd_ue(d, c2);
        head + seq![body_row("log2_max_pic_order_cnt_lsb_minus4"@, dec_chars(l as nat), c2->0, c3->0, ""@)]
    } else if poc == 1 {
        let (z, c3) = rd_flag(d, c2);
        let (nr, c4) = rd_se(d, c3);
        let (tb, c5) = rd_se(d, c4);
        let (cycle, c6) = rd_ue(d, c5);
        head + seq![
            body_row("delta_pic_order_always_zero_flag"@, flag_text(z), c2->0, c6->0, ""@),
            body_row("offset_for_non_ref_pic"@, dec_int(nr as int), c2->0, c6->0, ""@),
            body_row("offset_for_top_to_bottom_field"@, dec_int(tb as int), c2->0, c6->0, ""@),
            body_row("num_ref_frames_in_pic_order_cnt_cycle"@, dec_chars(cycle as nat), c2->0, c6->0, ""@),
        ] + offset_rows(d, c6, 0, cycle as nat)
    } else {
        head
    }
}

/// Reads and lists `cycle` values of `offset_for_ref_frame`.
fn parse_ref_frame_offsets(br: &mut BitReader, g3: &mut FieldGroup, cycle: u32) -> (r: Result<
    (),
    String,
>)
    requires
        old(br).wf(),
        cycle <= 255,
    ensures
        r is Err ==> sps_error(old(br).data(), r->Err_0@),
        final(br).wf(),
        final(br).data() == old(br).data(),
        final(g3).title == old(g3).title,
        r is Ok <==> se_run(old(br).data(), old(br).cur(), cycle as nat) is Some,
        r is Ok ==> final(br).cur() == se_run(old(br).data(), old(br).cur(), cycle as nat),
        final(g3).note == old(g3).note,
        r is Ok ==> rows(final(g3).fields@) == rows(old(g3).fields@) + offset_rows(
            old(br).data(),
            old(br).cur(),
            0,
            cycle as nat,
        ),
{
    proof {
        lemma_sps_errors(old(br).data());
    }
    let ghost d = br.data();
    let ghost c0 = br.cur();
    let mut i: u32 = 0;
    while i < cycle
        invariant
            br.wf(),
            br.data() == d,
            old(br).data() == d,
            old(br).cur() == c0,
            g3.title == old(g3).title,
            g3.note == old(g3).note,
            rows(g3.fields@) + offset_rows(d, br.cur(), i as nat, cycle as nat) == rows(old(g3).fields@)
                + offset_rows(d, c0, 0, cycle as nat),
            i <= cycle <= 255,
            se_run(d, c0, cycle as nat) == se_run(d, br.cur(), (cycle - i) as nat),
        decreases cycle - i,
    {
        proof {
            lemma_sps_errors(br.data());
        }
        let s = br.bit_pos();
        let v = match br.read_se() {
            Ok(v) => v,
            Err(e) => {
                proof {
                    lemma_se_run_none(d, (cycle - i - 1) as nat);
                }
                return Err(e);
            },
        };
        let name = num_text("offset_for_ref_frame[", i as u64, "]");
        let ghost rows0 = rows(g3.fields@);
        fld(g3, name.as_str(), crate::text::dec_i(v as i64), s, br.bit_pos(), "");
        assert(rows0 + offset_rows(d, Some(s as int), i as nat, cycle as nat) =~= rows(g3.fields@) + offset_rows(
            d,
            br.cur(),
            (i + 1) as nat,
            cycle as nat,
        ));
        i += 1;
    }
    assert(rows(g3.fields@) =~= rows(g3.fields@) + offset_rows(d, br.cur(), i as nat, cycle as nat));
    Ok(())
}

#[verifier::rlimit(60)]
fn sps_poc_exec(br: &mut BitReader, sps: &mut Sps, g3: &mut FieldGroup) -> (r: Result<
    (),
    String,
>)
    requires
        old(br).wf(),
    ensures
        r is Err ==> sps_error(old(br).data(), r->Err_0@),
        final(br).wf(),
        final(br).data() == old(br).data(),
        final(g3).title == old(g3).title,
        r is Ok <==> sps_poc(old(br).data(), old(br).cur(), *old(sps)).1 is Some,
        r is Ok ==> *final(sps) == sps_poc(old(br).data(), old(br).cur(), *old(sps)).0
            && final(br).cur() == sps_poc(old(br).data(), old(br).cur(), *old(sps)).1,
        final(g3).note == old(g3).note,
        r is Ok ==> rows(final(g3).fields@) == rows(old(g3).fields@) + sps_poc_rows(old(br).data(), old(br).cur()),
{
    proof {
        lemma_sps_errors(old(br).data());
    }
    let s = br.bit_pos();
    let log2_fn = br.read_ue()?;
    let desc = num_text("frame_num 位宽 = ", log2_fn as u64 + 4, "");
    fld(g3, "log2_max_frame_num_minus4", dec(log2_fn as u64), s, br.bit_pos(), desc.as_str());
    let s = br.bit_pos();
    let poc_type = br.read_ue()?;
    fld(g3, "pic_order_cnt_type", poc_type_name(poc_type), s, br.bit_pos(), "POC 计算方式（部分硬件仅支持特定类型）");
    let mut lsb = sps.log2_max_pic_order_cnt_lsb_minus4;
    let mut always_zero = sps.delta_pic_order_always_zero_flag;
    if poc_type == 0 {
        let l = read_ue_field(br, g3, "log2_max_pic_order_cnt_lsb_minus4", "")?;
        lsb = Some(l);
    } else if poc_type == 1 {
        let s = br.bit_pos();
        let z = br.read_bit()? == 1;
        let non_ref = br.read_se()?;
        let top_bottom = br.read_se()?;
        let cycle = br.read_ue()?;
        let e = br.bit_pos();
        fld(g3, "delta_pic_order_always_zero_flag", bool_str(z), s, e, "");
        fld(g3, "offset_for_non_ref_pic", crate::text::dec_i(non_ref as i64), s, e, "");
        fld(g3, "offset_for_top_to_bottom_field", crate::text::dec_i(top_bottom as i64), s, e, "");
        fld(g3, "num_ref_frames_in_pic_order_cnt_cycle", dec(cycle as u64), s, e, "");
        if cycle > 255 {
            assert(sps_error(br.data(), cycle_text(cycle as nat)));
            return Err(
                err_num(
                    "num_ref_frames_in_pic_order_cnt_cycle=",
                    cycle as u64,
                    " 异常过大（>255），疑似码流损坏",
                ),
            );
        }
        parse_ref_frame_offsets(br, g3, cycle)?;
        always_zero = Some(z);
    }
    assert(rows(g3.fields@) =~= rows(old(g3).fields@) + sps_poc_rows(old(br).data(), old(br).cur())) by {
        reveal(sps_poc_rows);
    }
    *sps = Sps {
        log2_max_frame_num_minus4: log2_fn,
        pic_order_cnt_type: poc_type,
        log2_max_pic_order_cnt_lsb_minus4: lsb,
        delta_pic_order_always_zero_flag: always_zero,
        ..*sps
    };
    Ok(())
}

/// The rows of the frame part of an SPS read from `c`: those of the
/// coding-structure group (reference frames) and of the picture-size
/// group.
#[verifier::opaque]
pub open spec fn sps_frame_rows(d: Seq<u8>, c: Option<int>) -> (Seq<FieldRow>, Seq<FieldRow>) {
    let (max_ref, c1) = rd_ue(d, c);
    let (gaps, c2) = rd_flag(d, c1);
    let (w, c3) = rd_ue(d, c2);
    let (h, c4) = rd_ue(d, c3);
    let (fo, c5) = rd_flag(d, c4);
    let (ad, c6) = if !fo {
        rd_flag(d, c5)
    } else {
        (false, c5)
    };
    let (direct, c7) = rd_flag(d, c6);
    let (crop, c8) = rd_flag(d, c7);
    let r_ad = if !fo {
        seq![body_row("mb_adaptive_frame_field_flag"@, flag_text(ad), c5->0, c6->0, ""@)]
    } else {
        seq![]
    };
    let r_crop = if crop {
        let (cl, c9) = rd_ue(d, c8);
        let (cr, c10) = rd_ue(d, c9);
        let (ct, c11) = rd_ue(d, c10);
        let (cb, c12) = rd_ue(d, c11);
        seq![
            body_row(
                "frame_crop offsets(L/R/T/B)"@,
                pair_seq(cl as nat, "/"@, cr as nat) + "/"@ + dec_chars(ct as nat) + "/"@ + dec_chars(cb as nat),
                c8->0,
                c12->0,
                ""@,
            ),
        ]
    } else {
        seq![]
    };
    (
        seq![
            body_row("max_num_ref_frames"@, dec_chars(max_ref as nat), c->0, c1->0, "参考帧数（影响 DPB 内存）"@),
            body_row("gaps_in_frame_num_value_allowed_flag"@, flag_text(gaps), c1->0, c2->0, ""@),
        ],
        seq![
            body_row("pic_width_in_mbs_minus1"@, dec_chars(w as nat), c2->0, c4->0, num_seq("= "@, (w + 1) as nat, " 宏块列"@)),
            body_row(
                "pic_height_in_map_units_minus1"@,
                dec_chars(h as nat),
                c2->0,
                c4->0,
                num_seq("= "@, (h + 1) as nat, " 宏块行"@),
            ),
            body_row("frame_mbs_only_flag"@, flag_text(fo), c4->0, c5->0, "0 表示允许场编码（隔行）"@),
        ] + r_ad + seq![
            body_row("direct_8x8_inference_flag"@, flag_text(direct), c6->0, c7->0, ""@),
            body_row("frame_cropping_flag"@, flag_text(crop), c7->0, c8->0, ""@),
        ] + r_crop,
    )
}

/// The computed picture size as listed: "W x H", or the raw values with a
/// warning when out of range.
pub open spec fn size_row(s: Sps) -> FieldRow {
    let (w, h) = raw_size(s);
    (
        "分辨率(计算)"@,
        if size_sane(s) {
            pair_seq(w as nat, "x"@, h as nat)
        } else {
            num_seq("原始值 "@, w as nat, "x"@) + dec_chars(h as nat) + "（超出合理范围，码流可能损坏）"@
        },
        None,
        None,
    )
}

#[verifier::rlimit(30)]
fn sps_frame_fields_exec(br: &mut BitReader, sps: &mut Sps, g3: &mut FieldGroup, g4: &mut FieldGroup) -> (r: Result<
    (),
    String,
>)
    requires
        old(br).wf(),
    ensures
        r is Err ==> sps_error(old(br).data(), r->Err_0@),
        final(br).wf(),
        final(br).data() == old(br).data(),
        final(g3).title == old(g3).title,
        final(g4).title == old(g4).title,
        r is Ok <==> sps_frame_fields(old(br).data(), old(br).cur(), *old(sps)).1 is Some,
        r is Ok ==> *final(sps) == sps_frame_fields(old(br).data(), old(br).cur(), *old(sps)).0
            && final(br).cur() == sps_frame_fields(old(br).data(), old(br).cur(), *old(sps)).1,
        final(g3).note == old(g3).note,
        final(g4).note == old(g4).note,
        r is Ok ==> rows(final(g3).fields@) == rows(old(g3).fields@) + sps_frame_rows(old(br).data(), old(br).cur()).0,
        r is Ok ==> rows(final(g4).fields@) == rows(old(g4).fields@) + sps_frame_rows(old(br).data(), old(br).cur()).1,
{
    proof {
        lemma_sps_errors(old(br).data());
    }
    let max_ref = read_ue_field(br, g3, "max_num_ref_frames", "参考帧数（影响 DPB 内存）")?;
    let gaps = read_flag_field(br, g3, "gaps_in_frame_num_value_allowed_flag", "")?;
    let s = br.bit_pos();
    let w_mbs = br.read_ue()?;
    let h_units = br.read_ue()?;
    let e = br.bit_pos();
    let dw = num_text("= ", w_mbs as u64 + 1, " 宏块列");
    fld(g4, "pic_width_in_mbs_minus1", dec(w_mbs as u64), s, e, dw.as_str());
    let dh = num_text("= ", h_units as u64 + 1, " 宏块行");
    fld(g4, "pic_height_in_map_units_minus1", dec(h_units as u64), s, e, dh.as_str());
    let frame_only = read_flag_field(br, g4, "frame_mbs_only_flag", "0 表示允许场编码（隔行）")?;
    let adaptive = if !frame_only {
        Some(read_flag_field(br, g4, "mb_adaptive_frame_field_flag", "")?)
    } else {
        sps.mb_adaptive_frame_field_flag
    };
    let direct = read_flag_field(br, g4, "direct_8x8_inference_flag", "")?;
    let cropping = read_flag_field(br, g4, "frame_cropping_flag", "")?;
    let (cl, cr, ct, cb) = if cropping {
        let s = br.bit_pos();
        let cl = br.read_ue()?;
        let cr = br.read_ue()?;
        let ct = br.read_ue()?;
        let cb = br.read_ue()?;
        let mut v = pair_text(cl as u64, "/", cr as u64);
        v.append("/");
        push_dec(&mut v, ct as u64);
        v.append("/");
        push_dec(&mut v, cb as u64);
        fld(g4, "frame_crop offsets(L/R/T/B)", v, s, br.bit_pos(), "");
        (cl, cr, ct, cb)
    } else {
        (
            sps.frame_crop_left_offset,
            sps.frame_crop_right_offset,
            sps.frame_crop_top_offset,
            sps.frame_crop_bottom_offset,
        )
    };
    assert(rows(g3.fields@) =~= rows(old(g3).fields@) + sps_frame_rows(old(br).data(), old(br).cur()).0) by {
        reveal(sps_frame_rows);
    }
    assert(rows(g4.fields@) =~= rows(old(g4).fields@) + sps_frame_rows(old(br).data(), old(br).cur()).1) by {
        reveal(sps_frame_rows);
    }
    *sps = Sps {
        max_num_ref_frames: max_ref,
        gaps_in_frame_num_value_allowed_flag: gaps,
        pic_width_in_mbs_minus1: w_mbs,
        pic_height_in_map_units_minus1: h_units,
        frame_mbs_only_flag: frame_only,
        mb_adaptive_frame_field_flag: adaptive,
        direct_8x8_inference_flag: direct,
        frame_cropping_flag: cropping,
        frame_crop_left_offset: cl,
        frame_crop_right_offset: cr,
        frame_crop_top_offset: ct,
        frame_crop_bottom_offset: cb,
        ..*sps
    };
    Ok(())
}

/// Computes the picture size of `sps` and lists it.
fn frame_size_exec(sps: &mut Sps, g4: &mut FieldGroup)
    ensures
        *final(sps) == with_size(*old(sps)),
        final(g4).title == old(g4).title,
        final(g4).note == old(g4).note,
        rows(final(g4).fields@) == rows(old(g4).fields@).push(size_row(*old(sps))),
{
    let w_mbs = sps.pic_width_in_mbs_minus1;
    let h_units = sps.pic_height_in_map_units_minus1;
    let width64: u64 = (w_mbs as u64 + 1) * 16;
    let height64: u64 = if sps.frame_mbs_only_flag {
        (h_units as u64 + 1) * 16
    } else {
        (h_units as u64 + 1) * 32
    };
    let cx: u64 = sps.frame_crop_left_offset as u64 + sps.frame_crop_right_offset as u64;
    let cy: u64 = sps.frame_crop_top_offset as u64 + sps.frame_crop_bottom_offset as u64;
    let cw: u64 = if sps.chroma_format_idc == 0 {
        cx
    } else {
        2 * cx
    };
    let ch: u64 = if sps.chroma_format_idc == 0 {
        if sps.frame_mbs_only_flag {
            cy
        } else {
            2 * cy
        }
    } else {
        if sps.frame_mbs_only_flag {
            2 * cy
        } else {
            4 * cy
        }
    };
    let (width64, height64) = if sps.frame_cropping_flag {
        (if width64 > cw {
            width64 - cw
        } else {
            0
        }, if height64 > ch {
            height64 - ch
        } else {
            0
        })
    } else {
        (width64, height64)
    };
    let sane = width64 > 0 && height64 > 0 && width64 <= 65536 && height64 <= 65536;
    assert(width64 == raw_size(*old(sps)).0 && height64 == raw_size(*old(sps)).1);
    let ghost before = g4.fields@;
    if sane {
        *sps = Sps { width: width64 as u32, height: height64 as u32, ..*sps };
        g4.push(Field::new("分辨率(计算)", pair_text(width64, "x", height64), None, ""));
    } else {
        *sps = Sps { width: 0, height: 0, ..*sps };
        let mut v = num_text("原始值 ", width64, "x");
        push_dec(&mut v, height64);
        v.append("（超出合理范围，码流可能损坏）");
        g4.push(Field::new("分辨率(计算)", v, None, ""));
    }
    proof {
        reveal_strlit("");
    }
    assert(g4.fields@ =~= before.push(g4.fields@.last()));
    assert(rows(g4.fields@) =~= rows(old(g4).fields@).push(size_row(*old(sps))));
}

fn sps_frame_exec(br: &mut BitReader, sps: &mut Sps, g3: &mut FieldGroup, g4: &mut FieldGroup) -> (r: Result<
    (),
    String,
>)
    requires
        old(br).wf(),
    ensures
        r is Err ==> sps_error(old(br).data(), r->Err_0@),
        final(br).wf(),
        final(br).data() == old(br).data(),
        final(g3).title == old(g3).title,
        final(g4).title == old(g4).title,
        r is Ok <==> sps_frame(old(br).data(), old(br).cur(), *old(sps)).1 is Some,
        r is Ok ==> *final(sps) == sps_frame(old(br).data(), old(br).cur(), *old(sps)).0
            && final(br).cur() == sps_frame(old(br).data(), old(br).cur(), *old(sps)).1,
        final(g3).note == old(g3).note,
        final(g4).note == old(g4).note,
        r is Ok ==> rows(final(g3).fields@) == rows(old(g3).fields@) + sps_frame_rows(old(br).data(), old(br).cur()).0,
        r is Ok ==> rows(final(g4).fields@) == rows(old(g4).fields@) + sps_frame_rows(old(br).data(), old(br).cur()).1
            + seq![size_row(sps_frame_fields(old(br).data(), old(br).cur(), *old(sps)).0)],
{
    proof {
        lemma_sps_errors(old(br).data());
    }
    sps_frame_fields_exec(br, sps, g3, g4)?;
    let ghost mid = rows(g4.fields@);
    frame_size_exec(sps, g4);
    assert(rows(g4.fields@) =~= mid + seq![size_row(sps_frame_fields(old(br).data(), old(br).cur(), *old(sps)).0)]);
    Ok(())
}

/// `num / den` rounded to the nearest integer, halves to even.
pub open spec fn round_half_even(num: nat, den: nat) -> nat {
    let q0 = num / den;
    let rem = num % den;
    if rem > den - rem || (rem == den - rem && q0 % 2 == 1) {
        q0 + 1
    } else {
        q0
    }
}

/// `q` thousandths written with three decimals, then " fps".
pub open spec fn fps_text(q: nat) -> Seq<char> {
    dec_chars(q / 1000) + "."@ + dec_chars((q % 1000) / 100) + dec_chars(((q % 1000) / 10) % 10) + dec_chars(
        (q % 1000) % 10,
    ) + " fps"@
}

/// The rows of the aspect-ratio part of a VUI read from `c`, as far as it
/// is read, and the cursor after it.
#[verifier::opaque]
pub open spec fn vui_aspect_rows(d: Seq<u8>, c: Option<int>) -> (Seq<FieldRow>, Option<int>) {
    let (ap, c1) = rd_flag(d, c);
    let r1 = row_when(c1, body_row("aspect_ratio_info_present_flag"@, flag_text(ap), c->0, c1->0, "宽高比信息"@));
    if ap {
        let (idc, c2) = rd_bits(d, c1, 8);
        let r2 = row_when(
            c2,
            body_row("aspect_ratio_idc"@, labelled(dec_chars(idc as nat), aspect_ratio_label(idc)), c1->0, c2->0, ""@),
        );
        if idc == 255 {
            let (w, c3) = rd_bits(d, c2, 16);
            let (h, c4) = rd_bits(d, c3, 16);
            (
                r1 + r2 + row_when(
                    c4,
                    body_row("sar_width/sar_height"@, pair_seq(w as nat, "x"@, h as nat), c2->0, c4->0, "SAR 宽高"@),
                ),
                c4,
            )
        } else {
            (r1 + r2, c2)
        }
    } else {
        (r1, c1)
    }
}

/// The rows of the video-signal part of a VUI read from `c`, as far as it
/// is read, and the cursor after it.
#[verifier::opaque]
pub open spec fn vui_signal_rows(d: Seq<u8>, c: Option<int>) -> (Seq<FieldRow>, Option<int>) {
    let (vf, c1) = rd_bits(d, c, 3);
    let (fr, c2) = rd_bits(d, c1, 1);
    let r1 = row_when(c2, body_row("video_format"@, labelled(dec_chars(vf as nat), video_format_label(vf)), c->0, c1->0, ""@))
        + row_when(c2, body_row("video_full_range_flag"@, flag_text(fr == 1), c1->0, c2->0, ""@));
    let (cd, c3) = rd_flag(d, c2);
    let r2 = row_when(c3, body_row("colour_description_present_flag"@, flag_text(cd), c2->0, c3->0, ""@));
    if cd {
        let (pr, c4) = rd_bits(d, c3, 8);
        let (tr, c5) = rd_bits(d, c4, 8);
        let (mx, c6) = rd_bits(d, c5, 8);
        (
            r1 + r2 + row_when(
                c6,
                body_row(
                    "colour_primaries/transfer/matrix"@,
                    pair_seq(pr as nat, "/"@, tr as nat) + "/"@ + dec_chars(mx as nat),
                    c3->0,
                    c6->0,
                    " primaries / transfer / matrix"@,
                ),
            ),
            c6,
        )
    } else {
        (r1 + r2, c3)
    }
}

/// The rows of the overscan, video-signal and chroma-location parts of a
/// VUI read from `c`, as far as they are read, and the cursor after them.
#[verifier::opaque]
pub open spec fn vui_mid_rows(d: Seq<u8>, c: Option<int>) -> (Seq<FieldRow>, Option<int>) {
    let (os, c1) = rd_flag(d, c);
    let r1 = row_when(c1, body_row("overscan_info_present_flag"@, flag_text(os), c->0, c1->0, ""@));
    let (oa, c2) = if os {
        rd_flag(d, c1)
    } else {
        (false, c1)
    };
    let r2 = if os {
        row_when(c2, body_row("overscan_appropriate_flag"@, flag_text(oa), c1->0, c2->0, ""@))
    } else {
        seq![]
    };
    let (vs, c3) = rd_flag(d, c2);
    let r3 = row_when(c3, body_row("video_signal_type_present_flag"@, flag_text(vs), c2->0, c3->0, ""@));
    let (r4, c6) = if vs {
        vui_signal_rows(d, c3)
    } else {
        (seq![], c3)
    };
    let (cl, c7) = rd_flag(d, c6);
    let r5 = row_when(c7, body_row("chroma_loc_info_present_flag"@, flag_text(cl), c6->0, c7->0, ""@));
    if cl {
        let (top, c8) = rd_ue(d, c7);
        let (bottom, c9) = rd_ue(d, c8);
        (
            r1 + r2 + r3 + r4 + r5 + row_when(
                c9,
                body_row("chroma_sample_loc_type(top/bottom)"@, pair_seq(top as nat, "/"@, bottom as nat), c7->0, c9->0, ""@),
            ),
            c9,
        )
    } else {
        (r1 + r2 + r3 + r4 + r5, c7)
    }
}

/// The rows of the timing part of a VUI read from `c`, as far as it is
/// read, and the cursor after it; `frame_only` tells whether the stream
/// is coded in frames only (else the rate given is a field rate).
#[verifier::opaque]
pub open spec fn vui_timing_rows(d: Seq<u8>, c: Option<int>, frame_only: bool) -> (Seq<FieldRow>, Option<int>) {
    let (tp, c1) = rd_flag(d, c);
    let r1 = row_when(c1, body_row("timing_info_present_flag"@, flag_text(tp), c->0, c1->0, "帧率信息"@));
    if tp {
        let (nu, c2) = rd_bits(d, c1, 32);
        let (ts, c3) = rd_bits(d, c2, 32);
        let (fx, c4) = rd_flag(d, c3);
        let r2 = row_when(
            c4,
            body_row(
                "num_units_in_tick / time_scale"@,
                pair_seq(nu as nat, " / "@, ts as nat),
                c1->0,
                c4->0,
                "time_scale/num_units_in_tick = 场率"@,
            ),
        ) + row_when(c4, body_row("fixed_frame_rate_flag"@, flag_text(fx), c4->0, c4->0, ""@));
        let r3 = if c4 is Some && nu > 0 && ts > 0 {
            seq![
                (
                    "帧率(计算)"@,
                    fps_text(
                        round_half_even(
                            (ts * 1000) as nat,
                            if frame_only {
                                nu as nat
                            } else {
                                (2 * nu) as nat
                            },
                        ),
                    ),
                    None,
                    desc_text(
                        if frame_only {
                            "time_scale / num_units_in_tick"@
                        } else {
                            "隔行流：场率已按 2:1 折算为帧率"@
                        },
                    ),
                ),
            ]
        } else {
            seq![]
        };
        (r1 + r2 + r3, c4)
    } else {
        (r1, c1)
    }
}

/// The rows of the HRD part of a VUI read from `c` (the two HRD flags,
/// their parameters and the low-delay flag), as far as it is read, and
/// the cursor after it.
#[verifier::opaque]
pub open spec fn vui_hrd_rows(d: Seq<u8>, c: Option<int>) -> (Seq<FieldRow>, Option<int>) {
    let (nh, c1) = rd_flag(d, c);
    let r1 = row_when(c1, body_row("nal_hrd_parameters_present_flag"@, flag_text(nh), c->0, c1->0, ""@));
    let (h1, c2) = if nh {
        hrd_rows(d, c1, "nal_hrd"@)
    } else {
        (seq![], c1)
    };
    let (vh, c3) = rd_flag(d, c2);
    let r2 = row_when(c3, body_row("vcl_hrd_parameters_present_flag"@, flag_text(vh), c2->0, c3->0, ""@));
    let (h2, c4) = if vh {
        hrd_rows(d, c3, "vcl_hrd"@)
    } else {
        (seq![], c3)
    };
    let (ld, c5) = if nh || vh {
        rd_flag(d, c4)
    } else {
        (false, c4)
    };
    let r3 = if nh || vh {
        row_when(c5, body_row("low_delay_hrd_flag"@, flag_text(ld), c4->0, c5->0, ""@))
    } else {
        seq![]
    };
    (r1 + h1 + r2 + h2 + r3, c5)
}

/// The rows of the picture-structure and bitstream-restriction parts of a
/// VUI read from `c`, as far as they are read, and the cursor after them.
#[verifier::opaque]
pub open spec fn vui_restrict_rows(d: Seq<u8>, c: Option<int>) -> (Seq<FieldRow>, Option<int>) {
    let (ps, c6) = rd_flag(d, c);
    let r4 = row_when(c6, body_row("pic_struct_present_flag"@, flag_text(ps), c->0, c6->0, ""@));
    let (rs, c7) = rd_flag(d, c6);
    let r5 = row_when(c7, body_row("bitstream_restriction_flag"@, flag_text(rs), c6->0, c7->0, ""@));
    let front = r4 + r5;
    if rs {
        let (mv, c8) = rd_flag(d, c7);
        let (b1, c9) = rd_ue(d, c8);
        let (b2, c10) = rd_ue(d, c9);
        let (b3, c11) = rd_ue(d, c10);
        let (b4, c12) = rd_ue(d, c11);
        let (b5, c13) = rd_ue(d, c12);
        let (b6, c14) = rd_ue(d, c13);
        (
            front + row_when(c8, body_row("motion_vectors_over_pic_boundaries_flag"@, flag_text(mv), c7->0, c8->0, ""@))
                + row_when(
                c10,
                body_row(
                    "max_bytes_per_pic_denom / max_bits_per_mb_denom"@,
                    pair_seq(b1 as nat, " / "@, b2 as nat),
                    c8->0,
                    c10->0,
                    ""@,
                ),
            ) + row_when(
                c12,
                body_row("log2_max_mv_length(h/v)"@, pair_seq(b3 as nat, " / "@, b4 as nat), c10->0, c12->0, ""@),
            ) + row_when(
                c14,
                body_row(
                    "max_num_reorder_frames / max_dec_frame_buffering"@,
                    pair_seq(b5 as nat, " / "@, b6 as nat),
                    c12->0,
                    c14->0,
                    "重排帧数 / DPB 深度（B 帧相关）"@,
                ),
            ),
            c14,
        )
    } else {
        (front, c7)
    }
}

/// The rows of the HRD, picture-structure and bitstream-restriction parts
/// of a VUI read from `c`, as far as they are read, and the cursor after
/// them.
pub open spec fn vui_rest_rows(d: Seq<u8>, c: Option<int>) -> (Seq<FieldRow>, Option<int>) {
    let (a, c1) = vui_hrd_rows(d, c);
    let (b, c2) = vui_restrict_rows(d, c1);
    (a + b, c2)
}

/// The rows of a VUI read from `c`, as far as it is read, and the cursor
/// after it (`None` when the VUI does not fit the data or is refused).
pub open spec fn vui_rows(d: Seq<u8>, c: Option<int>, frame_only: bool) -> (Seq<FieldRow>, Option<int>) {
    let (a, c1) = vui_aspect_rows(d, c);
    let (m, c2) = vui_mid_rows(d, c1);
    let (t, c3) = vui_timing_rows(d, c2, frame_only);
    let (r, c4) = vui_rest_rows(d, c3);
    (a + m + t + r, c4)
}

pub proof fn lemma_hrd_rows_none(d: Seq<u8>, prefix: Seq<char>)
    ensures
        hrd_rows(d, None, prefix) == (Seq::<FieldRow>::empty(), None::<int>),
{
    reveal(hrd_rows);
    lemma_cpb_rows_none(d, 0, 1, prefix);
    lemma_delay_rows_none(d, 0, prefix);
    assert(hrd_rows(d, None, prefix).0 =~= Seq::<FieldRow>::empty());
}

pub proof fn lemma_vui_parts_none(d: Seq<u8>, frame_only: bool)
    ensures
        vui_aspect_rows(d, None) == (Seq::<FieldRow>::empty(), None::<int>),
        vui_signal_rows(d, None) == (Seq::<FieldRow>::empty(), None::<int>),
        vui_mid_rows(d, None) == (Seq::<FieldRow>::empty(), None::<int>),
        vui_timing_rows(d, None, frame_only) == (Seq::<FieldRow>::empty(), None::<int>),
        vui_hrd_rows(d, None) == (Seq::<FieldRow>::empty(), None::<int>),
        vui_restrict_rows(d, None) == (Seq::<FieldRow>::empty(), None::<int>),
        vui_rest_rows(d, None) == (Seq::<FieldRow>::empty(), None::<int>),
        hrd_rows(d, None, "nal_hrd"@) == (Seq::<FieldRow>::empty(), None::<int>),
{
    reveal(vui_aspect_rows);
    reveal(vui_signal_rows);
    reveal(vui_mid_rows);
    reveal(vui_timing_rows);
    reveal(vui_hrd_rows);
    reveal(vui_restrict_rows);
    reveal(hrd_rows);
    lemma_cpb_rows_none(d, 0, 1, "nal_hrd"@);
    lemma_delay_rows_none(d, 0, "nal_hrd"@);
    assert(vui_aspect_rows(d, None).0 =~= Seq::<FieldRow>::empty());
    assert(vui_signal_rows(d, None).0 =~= Seq::<FieldRow>::empty());
    assert(vui_mid_rows(d, None).0 =~= Seq::<FieldRow>::empty());
    assert(vui_timing_rows(d, None, frame_only).0 =~= Seq::<FieldRow>::empty());
    assert(hrd_rows(d, None, "nal_hrd"@).0 =~= Seq::<FieldRow>::empty());
    assert(vui_hrd_rows(d, None).0 =~= Seq::<FieldRow>::empty());
    assert(vui_restrict_rows(d, None).0 =~= Seq::<FieldRow>::empty());
    assert(vui_rest_rows(d, None).0 =~= Seq::<FieldRow>::empty());
}

fn vui_aspect_exec(br: &mut BitReader, gv: &mut FieldGroup, sps: &mut Sps) -> (r: Result<
    (),
    String,
>)
    requires
        old(br).wf(),
    ensures
        r is Err ==> sps_error(old(br).data(), r->Err_0@),
        final(br).wf(),
        final(br).data() == old(br).data(),
        final(gv).title == old(gv).title,
        *final(sps) == vui_aspect(old(br).data(), old(br).cur(), *old(sps)).0,
        r is Ok <==> vui_aspect(old(br).data(), old(br).cur(), *old(sps)).1 is Some,
        r is Ok ==> final(br).cur() == vui_aspect(old(br).data(), old(br).cur(), *old(sps)).1,
        final(gv).note == old(gv).note,
        rows(final(gv).fields@) == rows(old(gv).fields@) + vui_aspect_rows(old(br).data(), old(br).cur()).0,
        r is Ok <==> vui_aspect_rows(old(br).data(), old(br).cur()).1 is Some,
        r is Ok ==> final(br).cur() == vui_aspect_rows(old(br).data(), old(br).cur()).1,
{
    proof {
        lemma_sps_errors(old(br).data());
    }
    proof {
        reveal(vui_aspect_rows);
    }
    let ghost base = rows(gv.fields@);
    let present = read_flag_field(br, gv, "aspect_ratio_info_present_flag", "宽高比信息")?;
    if present {
        let s = br.bit_pos();
        let idc = match br.read_bits(8) {
            Ok(v) => v,
            Err(e) => {
                assert(rows(gv.fields@) =~= base + vui_aspect_rows(old(br).data(), old(br).cur()).0);
                return Err(e);
            },
        };
        *sps = Sps { aspect_ratio_idc: Some(idc), ..*sps };
        fld(gv, "aspect_ratio_idc", aspect_ratio_name(idc), s, br.bit_pos(), "");
        if idc == 255 {
            let s = br.bit_pos();
            let w = match br.read_bits(16) {
                Ok(v) => v,
                Err(e) => {
                    assert(rows(gv.fields@) =~= base + vui_aspect_rows(old(br).data(), old(br).cur()).0);
                    return Err(e);
                },
            };
            let h = match br.read_bits(16) {
                Ok(v) => v,
                Err(e) => {
                    assert(rows(gv.fields@) =~= base + vui_aspect_rows(old(br).data(), old(br).cur()).0);
                    return Err(e);
                },
            };
            *sps = Sps { sar_width: Some(w), sar_height: Some(h), ..*sps };
            fld(gv, "sar_width/sar_height", pair_text(w as u64, "x", h as u64), s, br.bit_pos(), "SAR 宽高");
        }
    }
    assert(rows(gv.fields@) =~= base + vui_aspect_rows(old(br).data(), old(br).cur()).0);
    Ok(())
}

/// Reads and lists the video-signal part of a VUI.
fn vui_signal_exec(br: &mut BitReader, gv: &mut FieldGroup) -> (r: Result<(), String>)
    requires
        old(br).wf(),
    ensures
        r is Err ==> sps_error(old(br).data(), r->Err_0@),
        final(br).wf(),
        final(br).data() == old(br).data(),
        final(gv).title == old(gv).title,
        final(gv).note == old(gv).note,
        r is Ok <==> vui_signal(old(br).data(), old(br).cur()) is Some,
        r is Ok ==> final(br).cur() == vui_signal(old(br).data(), old(br).cur()),
        rows(final(gv).fields@) == rows(old(gv).fields@) + vui_signal_rows(old(br).data(), old(br).cur()).0,
        r is Ok <==> vui_signal_rows(old(br).data(), old(br).cur()).1 is Some,
        r is Ok ==> final(br).cur() == vui_signal_rows(old(br).data(), old(br).cur()).1,
{
    proof {
        lemma_sps_errors(old(br).data());
    }
    proof {
        reveal(vui_signal_rows);
    }
    let ghost base = rows(gv.fields@);
    let ghost d = br.data();
    let ghost c0 = br.cur();
    let s = br.bit_pos();
    let vf = match br.read_bits(3) {
        Ok(v) => v,
        Err(e) => {
            assert(rows(gv.fields@) =~= base + vui_signal_rows(d, c0).0);
            return Err(e);
        },
    };
    let vf_end = br.bit_pos();
    let full_range = match br.read_bit() {
        Ok(v) => v == 1,
        Err(e) => {
            assert(rows(gv.fields@) =~= base + vui_signal_rows(d, c0).0);
            return Err(e);
        },
    };
    fld(gv, "video_format", video_format_name(vf), s, vf_end, "");
    fld(gv, "video_full_range_flag", bool_str(full_range), vf_end, br.bit_pos(), "");
    let colour = match read_flag_field(br, gv, "colour_description_present_flag", "") {
        Ok(v) => v,
        Err(e) => {
            assert(rows(gv.fields@) =~= base + vui_signal_rows(d, c0).0);
            return Err(e);
        },
    };
    if colour {
        let s = br.bit_pos();
        let p = match br.read_bits(8) {
            Ok(v) => v,
            Err(e) => {
                assert(rows(gv.fields@) =~= base + vui_signal_rows(d, c0).0);
                return Err(e);
            },
        };
        let t = match br.read_bits(8) {
            Ok(v) => v,
            Err(e) => {
                assert(rows(gv.fields@) =~= base + vui_signal_rows(d, c0).0);
                return Err(e);
            },
        };
        let m = match br.read_bits(8) {
            Ok(v) => v,
            Err(e) => {
                assert(rows(gv.fields@) =~= base + vui_signal_rows(d, c0).0);
                return Err(e);
            },
        };
        let mut v = pair_text(p as u64, "/", t as u64);
        v.append("/");
        push_dec(&mut v, m as u64);
        fld(gv, "colour_primaries/transfer/matrix", v, s, br.bit_pos(), " primaries / transfer / matrix");
    }
    assert(rows(gv.fields@) =~= base + vui_signal_rows(d, c0).0);
    Ok(())
}

fn vui_mid_exec(br: &mut BitReader, gv: &mut FieldGroup) -> (r: Result<(), String>)
    requires
        old(br).wf(),
    ensures
        r is Err ==> sps_error(old(br).data(), r->Err_0@),
        final(br).wf(),
        final(br).data() == old(br).data(),
        final(gv).title == old(gv).title,
        r is Ok <==> vui_mid(old(br).data(), old(br).cur()) is Some,
        r is Ok ==> final(br).cur() == vui_mid(old(br).data(), old(br).cur()),
        final(gv).note == old(gv).note,
        rows(final(gv).fields@) == rows(old(gv).fields@) + vui_mid_rows(old(br).data(), old(br).cur()).0,
        r is Ok <==> vui_mid_rows(old(br).data(), old(br).cur()).1 is Some,
        r is Ok ==> final(br).cur() == vui_mid_rows(old(br).data(), old(br).cur()).1,
{
    proof {
        lemma_sps_errors(old(br).data());
    }
    proof {
        reveal(vui_mid_rows);
        lemma_vui_parts_none(old(br).data(), true);
    }
    let overscan = read_flag_field(br, gv, "overscan_info_present_flag", "")?;
    if overscan {
        let _ = read_flag_field(br, gv, "overscan_appropriate_flag", "")?;
    }
    let signal = read_flag_field(br, gv, "video_signal_type_present_flag", "")?;
    if signal {
        vui_signal_exec(br, gv)?;
    }
    let chroma_loc = read_flag_field(br, gv, "chroma_loc_info_present_flag", "")?;
    if chroma_loc {
        let s = br.bit_pos();
        let top = br.read_ue()?;
        let bottom = br.read_ue()?;
        fld(gv, "chroma_sample_loc_type(top/bottom)", pair_text(top as u64, "/", bottom as u64), s, br.bit_pos(), "");
    }
    assert(rows(gv.fields@) =~= rows(old(gv).fields@) + vui_mid_rows(old(br).data(), old(br).cur()).0);
    Ok(())
}

/// The three-decimal text of `num / den` (rounded half to even), then " fps".
fn rate_text(num: u64, den: u64) -> (r: String)
    requires
        den > 0,
        num <= 0x1_0000_0000 * 1000,
    ensures
        r@ == fps_text(round_half_even(num as nat, den as nat)),
{
    let q0 = num / den;
    let rem = num % den;
    let q = if rem > den - rem || (rem == den - rem && q0 % 2 == 1) {
        q0 + 1
    } else {
        q0
    };
    let mut s = dec(q / 1000);
    s.append(".");
    let frac = q % 1000;
    push_dec(&mut s, frac / 100);
    push_dec(&mut s, (frac / 10) % 10);
    push_dec(&mut s, frac % 10);
    s.append(" fps");
    s
}

fn vui_timing_exec(br: &mut BitReader, gv: &mut FieldGroup, sps: &mut Sps) -> (r: Result<
    (),
    String,
>)
    requires
        old(br).wf(),
    ensures
        r is Err ==> sps_error(old(br).data(), r->Err_0@),
        final(br).wf(),
        final(br).data() == old(br).data(),
        final(gv).title == old(gv).title,
        *final(sps) == vui_timing(old(br).data(), old(br).cur(), *old(sps)).0,
        r is Ok <==> vui_timing(old(br).data(), old(br).cur(), *old(sps)).1 is Some,
        r is Ok ==> final(br).cur() == vui_timing(old(br).data(), old(br).cur(), *old(sps)).1,
        final(gv).note == old(gv).note,
        rows(final(gv).fields@) == rows(old(gv).fields@) + vui_timing_rows(
            old(br).data(),
            old(br).cur(),
            old(sps).frame_mbs_only_flag,
        ).0,
        r is Ok <==> vui_timing_rows(old(br).data(), old(br).cur(), old(sps).frame_mbs_only_flag).1 is Some,
        r is Ok ==> final(br).cur() == vui_timing_rows(old(br).data(), old(br).cur(), old(sps).frame_mbs_only_flag).1,
{
    proof {
        lemma_sps_errors(old(br).data());
    }
    proof {
        reveal(vui_timing_rows);
    }
    let ghost base = rows(gv.fields@);
    let ghost d = br.data();
    let ghost c0 = br.cur();
    let ghost fo = sps.frame_mbs_only_flag;
    let timing = read_flag_field(br, gv, "timing_info_present_flag", "帧率信息")?;
    if timing {
        let s = br.bit_pos();
        let num_units = match br.read_bits(32) {
            Ok(v) => v,
            Err(e) => {
                assert(rows(gv.fields@) =~= base + vui_timing_rows(d, c0, fo).0);
                return Err(e);
            },
        };
        let time_scale = match br.read_bits(32) {
            Ok(v) => v,
            Err(e) => {
                assert(rows(gv.fields@) =~= base + vui_timing_rows(d, c0, fo).0);
                return Err(e);
            },
        };
        let fixed = match br.read_bit() {
            Ok(v) => v == 1,
            Err(e) => {
                assert(rows(gv.fields@) =~= base + vui_timing_rows(d, c0, fo).0);
                return Err(e);
            },
        };
        *sps = Sps {
            num_units_in_tick: Some(num_units),
            time_scale: Some(time_scale),
            fixed_frame_rate_flag: Some(fixed),
            ..*sps
        };
        fld(
            gv,
            "num_units_in_tick / time_scale",
            pair_text(num_units as u64, " / ", time_scale as u64),
            s,
            br.bit_pos(),
            "time_scale/num_units_in_tick = 场率",
        );
        let s = br.bit_pos();
        fld(gv, "fixed_frame_rate_flag", bool_str(fixed), s, br.bit_pos(), "");
        if num_units > 0 && time_scale > 0 {
            // interlaced streams give the field rate; the frame rate is half of it
            let den: u64 = if sps.frame_mbs_only_flag {
                num_units as u64
            } else {
                num_units as u64 * 2
            };
            let note = if sps.frame_mbs_only_flag {
                "time_scale / num_units_in_tick"
            } else {
                "隔行流：场率已按 2:1 折算为帧率"
            };
            let ghost before = gv.fields@;
            gv.push(Field::new("帧率(计算)", rate_text(time_scale as u64 * 1000, den), None, note));
            assert(gv.fields@ =~= before.push(gv.fields@.last()));
            assert(rows(gv.fields@) =~= rows(before).push(row_of(gv.fields@.last())));
        }
    }
    assert(rows(gv.fields@) =~= base + vui_timing_rows(d, c0, fo).0);
    Ok(())
}

/// The HRD part of the VUI.
fn vui_hrd_exec(br: &mut BitReader, gv: &mut FieldGroup) -> (r: Result<(), String>)
    requires
        old(br).wf(),
    ensures
        r is Err ==> sps_error(old(br).data(), r->Err_0@),
        final(br).wf(),
        final(br).data() == old(br).data(),
        final(gv).title == old(gv).title,
        final(gv).note == old(gv).note,
        rows(final(gv).fields@) == rows(old(gv).fields@) + vui_hrd_rows(old(br).data(), old(br).cur()).0,
        r is Ok <==> vui_hrd_rows(old(br).data(), old(br).cur()).1 is Some,
        r is Ok ==> final(br).cur() == vui_hrd_rows(old(br).data(), old(br).cur()).1,
{
    proof {
        lemma_sps_errors(old(br).data());
    }
    proof {
        reveal(vui_hrd_rows);
        lemma_hrd_rows_none(old(br).data(), "nal_hrd"@);
        lemma_hrd_rows_none(old(br).data(), "vcl_hrd"@);
    }
    let nal_hrd = read_flag_field(br, gv, "nal_hrd_parameters_present_flag", "")?;
    if nal_hrd {
        parse_hrd(br, gv, "nal_hrd")?;
    }
    let vcl_hrd = read_flag_field(br, gv, "vcl_hrd_parameters_present_flag", "")?;
    if vcl_hrd {
        parse_hrd(br, gv, "vcl_hrd")?;
    }
    if nal_hrd || vcl_hrd {
        let _ = read_flag_field(br, gv, "low_delay_hrd_flag", "")?;
    }
    Ok(())
}

/// The picture-structure and bitstream-restriction parts of the VUI.
fn vui_restrict_exec(br: &mut BitReader, gv: &mut FieldGroup) -> (r: Result<(), String>)
    requires
        old(br).wf(),
    ensures
        r is Err ==> sps_error(old(br).data(), r->Err_0@),
        final(br).wf(),
        final(br).data() == old(br).data(),
        final(gv).title == old(gv).title,
        final(gv).note == old(gv).note,
        rows(final(gv).fields@) == rows(old(gv).fields@) + vui_restrict_rows(old(br).data(), old(br).cur()).0,
        r is Ok <==> vui_restrict_rows(old(br).data(), old(br).cur()).1 is Some,
        r is Ok ==> final(br).cur() == vui_restrict_rows(old(br).data(), old(br).cur()).1,
{
    proof {
        lemma_sps_errors(old(br).data());
    }
    proof {
        reveal(vui_restrict_rows);
    }
    let ghost base = rows(gv.fields@);
    let ghost d = br.data();
    let ghost c0 = br.cur();
    let _ = read_flag_field(br, gv, "pic_struct_present_flag", "")?;
    let restriction = read_flag_field(br, gv, "bitstream_restriction_flag", "")?;
    if restriction {
        let _ = read_flag_field(br, gv, "motion_vectors_over_pic_boundaries_flag", "")?;
        let s = br.bit_pos();
        let b1 = match br.read_ue() {
            Ok(v) => v,
            Err(e) => {
                assert(rows(gv.fields@) =~= base + vui_restrict_rows(d, c0).0);
                return Err(e);
            },
        };
        let b2 = match br.read_ue() {
            Ok(v) => v,
            Err(e) => {
                assert(rows(gv.fields@) =~= base + vui_restrict_rows(d, c0).0);
                return Err(e);
            },
        };
        fld(gv, "max_bytes_per_pic_denom / max_bits_per_mb_denom", pair_text(b1 as u64, " / ", b2 as u64), s, br.bit_pos(), "");
        let s = br.bit_pos();
        let b3 = match br.read_ue() {
            Ok(v) => v,
            Err(e) => {
                assert(rows(gv.fields@) =~= base + vui_restrict_rows(d, c0).0);
                return Err(e);
            },
        };
        let b4 = match br.read_ue() {
            Ok(v) => v,
            Err(e) => {
                assert(rows(gv.fields@) =~= base + vui_restrict_rows(d, c0).0);
                return Err(e);
            },
        };
        fld(gv, "log2_max_mv_length(h/v)", pair_text(b3 as u64, " / ", b4 as u64), s, br.bit_pos(), "");
        let s = br.bit_pos();
        let b5 = match br.read_ue() {
            Ok(v) => v,
            Err(e) => {
                assert(rows(gv.fields@) =~= base + vui_restrict_rows(d, c0).0);
                return Err(e);
            },
        };
        let b6 = match br.read_ue() {
            Ok(v) => v,
            Err(e) => {
                assert(rows(gv.fields@) =~= base + vui_restrict_rows(d, c0).0);
                return Err(e);
            },
        };
        fld(
            gv,
            "max_num_reorder_frames / max_dec_frame_buffering",
            pair_text(b5 as u64, " / ", b6 as u64),
            s,
            br.bit_pos(),
            "重排帧数 / DPB 深度（B 帧相关）",
        );
    }
    assert(rows(gv.fields@) =~= base + vui_restrict_rows(d, c0).0);
    Ok(())
}

/// Reads and lists the VUI; the SPS takes the aspect-ratio and timing
/// values read before any error.
fn parse_vui(br: &mut BitReader, gv: &mut FieldGroup, sps: &mut Sps) -> (r: Result<(), String>)
    requires
        old(br).wf(),
    ensures
        r is Err ==> sps_error(old(br).data(), r->Err_0@),
        final(br).wf(),
        final(br).data() == old(br).data(),
        final(gv).title == old(gv).title,
        *final(sps) == vui_sps(old(br).data(), old(br).cur(), *old(sps)),
        final(gv).note == old(gv).note,
        rows(final(gv).fields@) == rows(old(gv).fields@) + vui_rows(
            old(br).data(),
            old(br).cur(),
            old(sps).frame_mbs_only_flag,
        ).0,
        r is Ok <==> vui_rows(old(br).data(), old(br).cur(), old(sps).frame_mbs_only_flag).1 is Some,
{
    proof {
        lemma_sps_errors(old(br).data());
    }
    proof {
        lemma_vui_parts_none(old(br).data(), old(sps).frame_mbs_only_flag);
    }
    vui_aspect_exec(br, gv, sps)?;
    vui_mid_exec(br, gv)?;
    vui_timing_exec(br, gv, sps)?;
    vui_hrd_exec(br, gv)?;
    vui_restrict_exec(br, gv)?;
    Ok(())
}

/// How the groups of a parsed SPS before its VUI are shown: titles, notes
/// and rows; the high-profile group only for high profiles.
pub open spec fn sps_groups(d: Seq<u8>) -> Seq<(Seq<char>, Option<Seq<char>>, Seq<FieldRow>)> {
    let (s1, c1) = sps_head(d);
    let (s2, c2) = sps_high(d, c1, s1);
    let (s3, c3) = sps_poc(d, c2, s2);
    let (fr3, fr4) = sps_frame_rows(d, c3);
    let c4 = sps_frame(d, c3, s3).1;
    let (vui, c5) = rd_flag(d, c4);
    let g1 = ("SPS · 基础信息"@, None::<Seq<char>>, sps_head_rows(d));
    let g3 = ("SPS · 编码结构"@, None::<Seq<char>>, sps_poc_rows(d, c2) + fr3);
    let g4 = (
        "SPS · 图像尺寸"@,
        None::<Seq<char>>,
        fr4 + seq![
            size_row(sps_frame_fields(d, c3, s3).0),
            body_row("vui_parameters_present_flag"@, flag_text(vui), c4->0, c5->0, "VUI 含帧率/宽高比/HRD 等"@),
        ],
    );
    if high_profile(s1.profile_idc) {
        seq![g1, ("SPS · 高档次扩展"@, None::<Seq<char>>, sps_high_rows(d, c1, s1)), g3, g4]
    } else {
        seq![g1, g3, g4]
    }
}

/// The VUI rows of an SPS body, as far as its VUI is read, and the cursor
/// after it (`None` when the VUI is cut short).
pub open spec fn sps_vui(d: Seq<u8>) -> (Seq<FieldRow>, Option<int>) {
    let (s, c) = sps_fields(d);
    vui_rows(d, c, s.frame_mbs_only_flag)
}

/// `groups` are the groups of the SPS body `d` as shown: those before the
/// VUI, then, when the SPS has one, the VUI group with its rows as far as
/// the VUI is read and, when it is cut short, a note that says so.
pub open spec fn sps_groups_are(groups: Seq<FieldGroup>, d: Seq<u8>) -> bool {
    let gs = groups_view(groups);
    let main = sps_groups(d);
    let vui = sps_fields(d).0.vui_parameters_present_flag;
    &&& gs.len() == main.len() + if vui {
        1int
    } else {
        0int
    }
    &&& gs.take(main.len() as int) == main
    &&& vui ==> {
        &&& gs.last().0 == "SPS · VUI 视频可用性信息"@
        &&& gs.last().2 == sps_vui(d).0
        &&& (gs.last().1 is None <==> sps_vui(d).1 is Some)
        &&& gs.last().1 matches Some(n) ==> exists|e: Seq<char>|
            n == "VUI 解析中断："@ + e && #[trigger] sps_error(d, e)
    }
}

/// The groups in the order they are shown: the high-profile group only
/// when `high`, the VUI group only when `vui`.
fn sps_group_list(
    g1: FieldGroup,
    g2: FieldGroup,
    g3: FieldGroup,
    g4: FieldGroup,
    gv: FieldGroup,
    high: bool,
    vui: bool,
) -> (groups: Vec<FieldGroup>)
    ensures
        groups@ == (if high {
            seq![g1, g2, g3, g4]
        } else {
            seq![g1, g3, g4]
        }) + (if vui {
            seq![gv]
        } else {
            seq![]
        }),
{
    let mut groups: Vec<FieldGroup> = Vec::new();
    groups.push(g1);
    if high {
        groups.push(g2);
    }
    groups.push(g3);
    groups.push(g4);
    if vui {
        groups.push(gv);
    }
    proof {
        assert(groups@ =~= (if high {
            seq![g1, g2, g3, g4]
        } else {
            seq![g1, g3, g4]
        }) + (if vui {
            seq![gv]
        } else {
            seq![]
        }));
    }
    groups
}

/// The groups before the VUI as shown, given the groups read.
pub open spec fn main_groups_view(
    s: Sps,
    g1: FieldGroup,
    g2: FieldGroup,
    g3: FieldGroup,
    g4: FieldGroup,
) -> Seq<(Seq<char>, Option<Seq<char>>, Seq<FieldRow>)> {
    if high_profile(s.profile_idc) {
        seq![group_view(g1), group_view(g2), group_view(g3), group_view(g4)]
    } else {
        seq![group_view(g1), group_view(g3), group_view(g4)]
    }
}

/// Reads every SPS field up to and including `vui_parameters_present_flag`
/// into the four groups shown before the VUI.
#[verifier::rlimit(60)]
fn sps_main_exec(br: &mut BitReader) -> (r: Result<(Sps, FieldGroup, FieldGroup, FieldGroup, FieldGroup), String>)
    requires
        old(br).wf(),
        old(br).pos() == 0,
    ensures
        r is Err ==> sps_error(old(br).data(), r->Err_0@),
        final(br).wf(),
        final(br).data() == old(br).data(),
        r is Ok <==> sps_fields(old(br).data()).1 is Some,
        r matches Ok((s, g1, g2, g3, g4)) ==> {
            &&& s == sps_fields(old(br).data()).0
            &&& final(br).cur() == sps_fields(old(br).data()).1
            &&& g1.title@ == "SPS · 基础信息"@
            &&& g2.title@ == "SPS · 高档次扩展"@
            &&& g3.title@ == "SPS · 编码结构"@
            &&& g4.title@ == "SPS · 图像尺寸"@
            &&& main_groups_view(s, g1, g2, g3, g4) == sps_groups(old(br).data())
        },
{
    proof {
        lemma_sps_errors(old(br).data());
    }
    let mut g1 = FieldGroup::new("SPS · 基础信息");
    let mut g2 = FieldGroup::new("SPS · 高档次扩展");
    let mut g3 = FieldGroup::new("SPS · 编码结构");
    let mut g4 = FieldGroup::new("SPS · 图像尺寸");
    let ghost d = br.data();
    let mut sps = sps_head_exec(br, &mut g1)?;
    let ghost c1 = br.cur();
    let ghost s1 = sps;
    sps_high_exec(br, &mut sps, &mut g2)?;
    let ghost c2 = br.cur();
    sps_poc_exec(br, &mut sps, &mut g3)?;
    let ghost c3 = br.cur();
    let ghost s3 = sps;
    sps_frame_exec(br, &mut sps, &mut g3, &mut g4)?;
    let ghost c4 = br.cur();
    let vui_present = read_flag_field(br, &mut g4, "vui_parameters_present_flag", "VUI 含帧率/宽高比/HRD 等")?;
    sps = Sps { vui_parameters_present_flag: vui_present, ..sps };
    let ghost cv = br.cur();
    assert(rows(g4.fields@) =~= sps_frame_rows(d, c3).1 + seq![
        size_row(sps_frame_fields(d, c3, s3).0),
        body_row("vui_parameters_present_flag"@, flag_text(vui_present), c4->0, cv->0, "VUI 含帧率/宽高比/HRD 等"@),
    ]);
    assert(rows(g3.fields@) =~= sps_poc_rows(d, c2) + sps_frame_rows(d, c3).0);
    assert(rows(g1.fields@) =~= sps_head_rows(d));
    assert(rows(g2.fields@) =~= sps_high_rows(d, c1, s1));
    assert(main_groups_view(sps, g1, g2, g3, g4) =~= sps_groups(d));
    Ok((sps, g1, g2, g3, g4))
}

/// Parses an SPS RBSP body (without the NAL unit header).
#[verifier::rlimit(60)]
pub fn parse_sps(body: &[u8]) -> (r: Result<SpsParse, String>)
    requires
        readable(body@),
    ensures
        body@.len() == 0 ==> (r matches Err(e) && e@ == "SPS 载荷为空"@),
        body@.len() > 0 ==> (r matches Err(e) ==> sps_error(body@, e@)),
        r is Ok <==> body@.len() > 0 && sps_fields(body@).1 is Some,
        r is Ok ==> r->Ok_0.sps == sps_value(body@) && titles(r->Ok_0.groups@) == sps_titles(
            r->Ok_0.sps,
        ),
        r is Ok ==> sps_groups_are(r->Ok_0.groups@, body@),
{
    if body.len() == 0 {
        return Err(String::from_str("SPS 载荷为空"));
    }
    let mut br = BitReader::new(body);
    let ghost d = body@;
    let (mut sps, g1, g2, g3, g4) = sps_main_exec(&mut br)?;
    let vui_present = sps.vui_parameters_present_flag;
    let mut gv = FieldGroup::new("SPS · VUI 视频可用性信息");
    if vui_present {
        match parse_vui(&mut br, &mut gv, &mut sps) {
            Ok(()) => {},
            Err(e) => {
                gv.note = Some(crate::text::cat("VUI 解析中断：", e.as_str()));
            },
        }
    }
    assert(rows(gv.fields@) =~= if vui_present { sps_vui(d).0 } else { seq![] });
    let high = is_high_profile(sps.profile_idc);
    let groups = sps_group_list(g1, g2, g3, g4, gv, high, vui_present);
    proof {
        assert(titles(groups@) =~= sps_titles(sps));
        assert(groups_view(groups@).take(sps_groups(d).len() as int) =~= sps_groups(d));
    }
    Ok(SpsParse { sps, groups })
}

} // verus!
