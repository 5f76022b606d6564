//! PPS (picture parameter set) parsing.

use vstd::prelude::*;
use crate::h264::bitreader::{BitReader, rd_bits, rd_flag, rd_ue, rd_se, readable, more_data_after, reader_error};
use crate::h264::common::{FieldGroup, FieldRow, bool_str, body_row, flag_text, rows, groups_view};
use crate::h264::sps::{
    fld,
    read_flag_field,
    read_ue_field,
    parse_scaling_list,
    scaling_matrix,
    scaling_list,
    list_size,
    lemma_scaling_list_none,
    lemma_scaling_matrix_none,
    titles,
    scaling_rows,
};
use crate::text::{dec, dec_i, num_text, dec_chars, dec_int, num_seq, int_seq, pair_seq};
use crate::mp4::lines_text;

verus! {

broadcast use crate::h264::bitreader::group_readers;

/// The values of a PPS that slice-header parsing depends on.
#[derive(Debug, Clone, Copy)]
pub struct Pps {
    pub pic_parameter_set_id: u32,
    pub seq_parameter_set_id: u32,
    pub entropy_coding_mode_flag: bool,
    pub bottom_field_pic_order_in_frame_present_flag: bool,
    pub num_slice_groups_minus1: u32,
    pub num_ref_idx_l0_default_active_minus1: u32,
    pub num_ref_idx_l1_default_active_minus1: u32,
    pub weighted_pred_flag: bool,
    pub weighted_bipred_idc: u32,
    pub pic_init_qp_minus26: i32,
    pub pic_init_qs_minus26: i32,
    pub chroma_qp_index_offset: i32,
    pub deblocking_filter_control_present_flag: bool,
    pub constrained_intra_pred_flag: bool,
    pub redundant_pic_cnt_present_flag: bool,
    pub transform_8x8_mode_flag: Option<bool>,
}

/// The parsed PPS, its field table and its warnings.
#[derive(Debug, Clone)]
pub struct PpsParse {
    pub pps: Pps,
    pub groups: Vec<FieldGroup>,
    pub warnings: Vec<String>,
}

/// A PPS with every value zero, false or absent.
pub open spec fn pps_zero() -> Pps {
    Pps {
        pic_parameter_set_id: 0,
        seq_parameter_set_id: 0,
        entropy_coding_mode_flag: false,
        bottom_field_pic_order_in_frame_present_flag: false,
        num_slice_groups_minus1: 0,
        num_ref_idx_l0_default_active_minus1: 0,
        num_ref_idx_l1_default_active_minus1: 0,
        weighted_pred_flag: false,
        weighted_bipred_idc: 0,
        pic_init_qp_minus26: 0,
        pic_init_qs_minus26: 0,
        chroma_qp_index_offset: 0,
        deblocking_filter_control_present_flag: false,
        constrained_intra_pred_flag: false,
        redundant_pic_cnt_present_flag: false,
        transform_8x8_mode_flag: None,
    }
}

/// The ids, the entropy coding mode, the bottom-field flag and the number
/// of slice groups.
pub open spec fn pps_head(d: Seq<u8>) -> (Pps, Option<int>) {
    let (pid, c) = rd_ue(d, Some(0));
    let (sid, c) = rd_ue(d, c);
    let (ent, c) = rd_flag(d, c);
    let (bot, c) = rd_flag(d, c);
    let (ng, c) = rd_ue(d, c);
    (
        Pps {
            pic_parameter_set_id: pid,
            seq_parameter_set_id: sid,
            entropy_coding_mode_flag: ent,
            bottom_field_pic_order_in_frame_present_flag: bot,
            num_slice_groups_minus1: ng,
            ..pps_zero()
        },
        c,
    )
}

/// Reference list sizes, weighted prediction, initial quantisers and the
/// control flags.
pub open spec fn pps_main(d: Seq<u8>, c: Option<int>, p: Pps) -> (Pps, Option<int>) {
    let (l0, c) = rd_ue(d, c);
    let (l1, c) = rd_ue(d, c);
    let (wp, c) = rd_flag(d, c);
    let (wb, c) = rd_bits(d, c, 2);
    let (qp, c) = rd_se(d, c);
    let (qs, c) = rd_se(d, c);
    let (cq, c) = rd_se(d, c);
    let (deblock, c) = rd_flag(d, c);
    let (cip, c) = rd_flag(d, c);
    let (rpc, c) = rd_flag(d, c);
    (
        Pps {
            num_ref_idx_l0_default_active_minus1: l0,
            num_ref_idx_l1_default_active_minus1: l1,
            weighted_pred_flag: wp,
            weighted_bipred_idc: wb,
            pic_init_qp_minus26: qp,
            pic_init_qs_minus26: qs,
            chroma_qp_index_offset: cq,
            deblocking_filter_control_present_flag: deblock,
            constrained_intra_pred_flag: cip,
            redundant_pic_cnt_present_flag: rpc,
            ..p
        },
        c,
    )
}

/// The number of scaling lists of a PPS, with the chroma format of its
/// SPS when known (4:2:0 assumed otherwise).
pub open spec fn pps_list_count(hint: Option<u32>) -> nat {
    if (match hint {
        Some(v) => v,
        None => 1,
    }) != 3 {
        8
    } else {
        12
    }
}

/// The extension read while RBSP data remains: `transform_8x8_mode_flag`,
/// the scaling matrix, and `second_chroma_qp_index_offset` when data still
/// remains after it.
pub open spec fn pps_ext(d: Seq<u8>, c: Option<int>, p: Pps, hint: Option<u32>) -> (
    Pps,
    Option<int>,
) {
    match c {
        Some(q) => if more_data_after(d, q) {
            let (t8, c) = rd_flag(d, c);
            let (sc, c) = rd_flag(d, c);
            let c = if sc {
                scaling_matrix(d, c, 0, pps_list_count(hint))
            } else {
                c
            };
            let c = match c {
                Some(q2) => if more_data_after(d, q2) {
                    rd_se(d, c).1
                } else {
                    c
                },
                None => None,
            };
            (Pps { transform_8x8_mode_flag: Some(t8), ..p }, c)
        } else {
            (p, c)
        },
        None => (p, None),
    }
}

/// The PPS of an RBSP body, or `None` when it does not fit the data. With
/// more than one slice group (FMO) parsing stops after the head.
pub open spec fn pps_result(d: Seq<u8>, hint: Option<u32>) -> Option<Pps> {
    let (p, c) = pps_head(d);
    if c is None {
        None
    } else if p.num_slice_groups_minus1 != 0 {
        Some(p)
    } else {
        let (p, c) = pps_main(d, c, p);
        let (p, c) = pps_ext(d, c, p, hint);
        if c is Some {
            Some(p)
        } else {
            None
        }
    }
}

/// The warning added for each scaling list that a PPS holds.
pub open spec fn scaling_warning() -> Seq<char> {
    "PPS 含缩放列表，按 8 个列表（chroma≠3）假设解析"@
}

/// The warning of a PPS with more than one slice group.
pub open spec fn fmo_warning() -> Seq<char> {
    "该 PPS 使用多切片组（FMO），后续字段未解析（v1 不支持 FMO）"@
}

/// How many of lists `i..count` of a scaling matrix are present.
pub open spec fn lists_present(d: Seq<u8>, c: Option<int>, i: nat, count: nat) -> nat
    decreases count - i,
{
    if i >= count {
        0
    } else {
        let (present, c2) = rd_flag(d, c);
        let c3 = if present {
            scaling_list(d, c2, 0, list_size(i), 8, 8)
        } else {
            c2
        };
        (if present {
            1nat
        } else {
            0nat
        }) + lists_present(d, c3, i + 1, count)
    }
}

/// How many scaling lists the extension of a PPS holds, read from `c`.
pub open spec fn ext_lists(d: Seq<u8>, c: Option<int>, hint: Option<u32>) -> nat {
    match c {
        Some(q) => if more_data_after(d, q) {
            let (_t8, c) = rd_flag(d, c);
            let (sc, c) = rd_flag(d, c);
            if sc {
                lists_present(d, c, 0, pps_list_count(hint))
            } else {
                0
            }
        } else {
            0
        },
        None => 0,
    }
}

/// `n` copies of the text `t`.
pub open spec fn repeated(t: Seq<char>, n: nat) -> Seq<Seq<char>> {
    Seq::new(n, |_i: int| t)
}

/// The warnings of a PPS: the FMO warning alone when it has slice groups,
/// else one scaling-list warning per list present.
#[verifier::opaque]
pub open spec fn pps_warnings(d: Seq<u8>, hint: Option<u32>) -> Seq<Seq<char>> {
    let (p, c) = pps_head(d);
    if p.num_slice_groups_minus1 != 0 {
        seq![fmo_warning()]
    } else {
        repeated(scaling_warning(), ext_lists(d, pps_main(d, c, p).1, hint))
    }
}

/// The rows of the head of a PPS: those of the first group (the ids and
/// the number of slice groups) and of the second (the entropy coding mode
/// and the bottom-field flag).
pub open spec fn pps_head_rows(d: Seq<u8>) -> (Seq<FieldRow>, Seq<FieldRow>) {
    let (pid, c1) = rd_ue(d, Some(0));
    let (sid, c2) = rd_ue(d, c1);
    let (ent, c3) = rd_flag(d, c2);
    let (bot, c4) = rd_flag(d, c3);
    let (ng, c5) = rd_ue(d, c4);
    (
        seq![
            body_row("pic_parameter_set_id"@, dec_chars(pid as nat), 0, c1->0, ""@),
            body_row("seq_parameter_set_id"@, dec_chars(sid as nat), c1->0, c2->0, "引用的 SPS"@),
            body_row("num_slice_groups_minus1"@, dec_chars(ng as nat), c4->0, c5->0, "FMO 多切片组（罕见）"@),
        ],
        seq![
            body_row(
                "entropy_coding_mode_flag"@,
                if ent {
                    "1 (CABAC)"@
                } else {
                    "0 (CAVLC)"@
                },
                c2->0,
                c3->0,
                "CABAC 仅 Main/High 可用，Baseline 必须 CAVLC"@,
            ),
            body_row("bottom_field_pic_order_in_frame_present_flag"@, flag_text(bot), c3->0, c4->0, "场编码时 POC 相关"@),
        ],
    )
}

/// The value shown for a `weighted_bipred_idc`.
pub open spec fn bipred_value(v: u32) -> Seq<char> {
    num_seq(""@, v as nat, " "@) + if v == 0 {
        "0 (无)"@
    } else if v == 1 {
        "1 (显式)"@
    } else if v == 2 {
        "2 (隐式)"@
    } else {
        "?"@
    }
}

/// The rows of the main part of a PPS read from `c`, for the second, third
/// and fourth groups.
pub open spec fn pps_main_rows(d: Seq<u8>, c: Option<int>) -> (Seq<FieldRow>, Seq<FieldRow>, Seq<FieldRow>) {
    let (l0, c1) = rd_ue(d, c);
    let (l1, c2) = rd_ue(d, c1);
    let (wp, c3) = rd_flag(d, c2);
    let (wb, c4) = rd_bits(d, c3, 2);
    let (qp, c5) = rd_se(d, c4);
    let (qs, c6) = rd_se(d, c5);
    let (cq, c7) = rd_se(d, c6);
    let (deblock, c8) = rd_flag(d, c7);
    let (cip, c9) = rd_flag(d, c8);
    let (rpc, c10) = rd_flag(d, c9);
    (
        seq![
            body_row(
                "num_ref_idx_l0/l1_default_active_minus1"@,
                pair_seq(l0 as nat, "/"@, l1 as nat),
                c->0,
                c2->0,
                "默认参考帧列表长度"@,
            ),
            body_row("weighted_pred_flag"@, flag_text(wp), c2->0, c3->0, "P/SP 切片加权预测（嵌入式常见不支持）"@),
            body_row("weighted_bipred_idc"@, bipred_value(wb), c3->0, c4->0, "B 切片加权预测模式"@),
        ],
        seq![
            body_row("pic_init_qp_minus26"@, dec_int(qp as int), c4->0, c6->0, int_seq("初始 QP = "@, qp + 26, ""@)),
            body_row("pic_init_qs_minus26"@, dec_int(qs as int), c4->0, c6->0, ""@),
            body_row("chroma_qp_index_offset"@, dec_int(cq as int), c6->0, c7->0, ""@),
        ],
        seq![
            body_row("deblocking_filter_control_present_flag"@, flag_text(deblock), c7->0, c8->0, "切片头是否携带环路滤波参数"@),
            body_row("constrained_intra_pred_flag"@, flag_text(cip), c8->0, c9->0, ""@),
            body_row("redundant_pic_cnt_present_flag"@, flag_text(rpc), c9->0, c10->0, ""@),
        ],
    )
}

/// The rows of lists `i..count` of a PPS scaling matrix: each presence
/// flag, then the entries of the list when present.
pub open spec fn matrix_rows(d: Seq<u8>, c: Option<int>, i: nat, count: nat) -> Seq<FieldRow>
    decreases count - i,
{
    if i >= count {
        seq![]
    } else {
        let (present, c2) = rd_flag(d, c);
        let flag = body_row(num_seq("pic_scaling_list_present_flag["@, i, "]"@), flag_text(present), c->0, c2->0, ""@);
        if present {
            seq![flag] + scaling_rows(d, c2, 0, list_size(i), 8, 8, ""@) + matrix_rows(
                d,
                scaling_list(d, c2, 0, list_size(i), 8, 8),
                i + 1,
                count,
            )
        } else {
            seq![flag] + matrix_rows(d, c2, i + 1, count)
        }
    }
}

/// The rows of the extension of a PPS read from `c`, for the third and
/// fourth groups.
pub open spec fn pps_ext_rows(d: Seq<u8>, c: Option<int>, hint: Option<u32>) -> (Seq<FieldRow>, Seq<FieldRow>) {
    match c {
        Some(q) => if more_data_after(d, q) {
            let (t8, c1) = rd_flag(d, c);
            let (sc, c2) = rd_flag(d, c1);
            let head = seq![
                body_row("transform_8x8_mode_flag"@, flag_text(t8), q, c1->0, "8x8 变换（High 档次，Baseline 无）"@),
                body_row("pic_scaling_matrix_present_flag"@, flag_text(sc), c1->0, c2->0, ""@),
            ];
            let (m, c3) = if sc {
                (matrix_rows(d, c2, 0, pps_list_count(hint)), scaling_matrix(d, c2, 0, pps_list_count(hint)))
            } else {
                (seq![], c2)
            };
            let g3 = match c3 {
                Some(q3) => if more_data_after(d, q3) {
                    let (v, c4) = rd_se(d, c3);
                    seq![body_row("second_chroma_qp_index_offset"@, dec_int(v as int), q3, c4->0, ""@)]
                } else {
                    seq![]
                },
                None => seq![],
            };
            (g3, head + m)
        } else {
            (seq![], seq![])
        },
        None => (seq![], seq![]),
    }
}

/// How the groups of a parsed PPS are shown: titles, notes and rows. With
/// slice groups only the first two groups are listed, the first with a
/// note.
#[verifier::opaque]
pub open spec fn pps_groups(d: Seq<u8>, hint: Option<u32>) -> Seq<(Seq<char>, Option<Seq<char>>, Seq<FieldRow>)> {
    let (p, c) = pps_head(d);
    let (h1, h2) = pps_head_rows(d);
    if p.num_slice_groups_minus1 != 0 {
        seq![("PPS · 基础信息"@, Some("检测到 FMO，解析提前结束"@), h1), ("PPS · 熵编码与预测"@, None, h2)]
    } else {
        let (m2, m3, m4) = pps_main_rows(d, c);
        let (e3, e4) = pps_ext_rows(d, pps_main(d, c, p).1, hint);
        seq![
            ("PPS · 基础信息"@, None, h1),
            ("PPS · 熵编码与预测"@, None, h2 + m2),
            ("PPS · 量化"@, None, m3 + e3),
            ("PPS · 其他控制"@, None, m4 + e4),
        ]
    }
}

#[verifier::rlimit(30)]
fn pps_head_exec(br: &mut BitReader, g1: &mut FieldGroup, g2: &mut FieldGroup) -> (r: Result<
    Pps,
    String,
>)
    requires
        old(br).wf(),
        old(br).pos() == 0,
    ensures
        r is Err ==> reader_error(old(br).data(), r->Err_0@),
        final(br).wf(),
        final(br).data() == old(br).data(),
        final(g1).title == old(g1).title,
        final(g1).note == old(g1).note,
        final(g2).title == old(g2).title,
        final(g2).note == old(g2).note,
        r is Ok <==> pps_head(old(br).data()).1 is Some,
        r is Ok ==> r->Ok_0 == pps_head(old(br).data()).0 && final(br).cur() == pps_head(
            old(br).data(),
        ).1,
        r is Ok ==> rows(final(g1).fields@) == rows(old(g1).fields@) + pps_head_rows(old(br).data()).0,
        r is Ok ==> rows(final(g2).fields@) == rows(old(g2).fields@) + pps_head_rows(old(br).data()).1,
{
    let pps_id = read_ue_field(br, g1, "pic_parameter_set_id", "")?;
    let sps_id = read_ue_field(br, g1, "seq_parameter_set_id", "引用的 SPS")?;
    let s = br.bit_pos();
    let entropy = br.read_bit()? == 1;
    let v = if entropy {
        String::from_str("1 (CABAC)")
    } else {
        String::from_str("0 (CAVLC)")
    };
    fld(g2, "entropy_coding_mode_flag", v, s, br.bit_pos(), "CABAC 仅 Main/High 可用，Baseline 必须 CAVLC");
    let bottom = read_flag_field(br, g2, "bottom_field_pic_order_in_frame_present_flag", "场编码时 POC 相关")?;
    let groups = read_ue_field(br, g1, "num_slice_groups_minus1", "FMO 多切片组（罕见）")?;
    assert(rows(g1.fields@) =~= rows(old(g1).fields@) + pps_head_rows(old(br).data()).0);
    assert(rows(g2.fields@) =~= rows(old(g2).fields@) + pps_head_rows(old(br).data()).1);
    Ok(
        Pps {
            pic_parameter_set_id: pps_id,
            seq_parameter_set_id: sps_id,
            entropy_coding_mode_flag: entropy,
            bottom_field_pic_order_in_frame_present_flag: bottom,
            num_slice_groups_minus1: groups,
            num_ref_idx_l0_default_active_minus1: 0,
            num_ref_idx_l1_default_active_minus1: 0,
            weighted_pred_flag: false,
            weighted_bipred_idc: 0,
            pic_init_qp_minus26: 0,
            pic_init_qs_minus26: 0,
            chroma_qp_index_offset: 0,
            deblocking_filter_control_present_flag: false,
            constrained_intra_pred_flag: false,
            redundant_pic_cnt_present_flag: false,
            transform_8x8_mode_flag: None,
        },
    )
}

/// The name of a `weighted_bipred_idc`.
fn bipred_text(v: u32) -> (r: String)
    ensures
        r@ == bipred_value(v),
{
    let name = match v {
        0 => "0 (无)",
        1 => "1 (显式)",
        2 => "2 (隐式)",
        _ => "?",
    };
    num_text("", v as u64, " ").concat(name)
}

#[verifier::rlimit(30)]
fn pps_main_exec(
    br: &mut BitReader,
    pps: &mut Pps,
    g2: &mut FieldGroup,
    g3: &mut FieldGroup,
    g4: &mut FieldGroup,
) -> (r: Result<(), String>)
    requires
        old(br).wf(),
    ensures
        r is Err ==> reader_error(old(br).data(), r->Err_0@),
        final(br).wf(),
        final(br).data() == old(br).data(),
        final(g2).title == old(g2).title,
        final(g3).title == old(g3).title,
        final(g4).title == old(g4).title,
        final(g2).note == old(g2).note,
        final(g3).note == old(g3).note,
        final(g4).note == old(g4).note,
        r is Ok <==> pps_main(old(br).data(), old(br).cur(), *old(pps)).1 is Some,
        r is Ok ==> *final(pps) == pps_main(old(br).data(), old(br).cur(), *old(pps)).0
            && final(br).cur() == pps_main(old(br).data(), old(br).cur(), *old(pps)).1,
        r is Ok ==> rows(final(g2).fields@) == rows(old(g2).fields@) + pps_main_rows(old(br).data(), old(br).cur()).0,
        r is Ok ==> rows(final(g3).fields@) == rows(old(g3).fields@) + pps_main_rows(old(br).data(), old(br).cur()).1,
        r is Ok ==> rows(final(g4).fields@) == rows(old(g4).fields@) + pps_main_rows(old(br).data(), old(br).cur()).2,
{
    let s = br.bit_pos();
    let l0 = br.read_ue()?;
    let l1 = br.read_ue()?;
    fld(g2, "num_ref_idx_l0/l1_default_active_minus1", crate::text::pair_text(l0 as u64, "/", l1 as u64), s, br.bit_pos(), "默认参考帧列表长度");
    let wp = read_flag_field(br, g2, "weighted_pred_flag", "P/SP 切片加权预测（嵌入式常见不支持）")?;
    let s = br.bit_pos();
    let wb_idc = br.read_bits(2)?;
    fld(g2, "weighted_bipred_idc", bipred_text(wb_idc), s, br.bit_pos(), "B 切片加权预测模式");
    let s = br.bit_pos();
    let init_qp = br.read_se()?;
    let init_qs = br.read_se()?;
    let e = br.bit_pos();
    let desc = crate::text::int_text("初始 QP = ", init_qp as i64 + 26, "");
    fld(g3, "pic_init_qp_minus26", dec_i(init_qp as i64), s, e, desc.as_str());
    fld(g3, "pic_init_qs_minus26", dec_i(init_qs as i64), s, e, "");
    let s = br.bit_pos();
    let cqpo = br.read_se()?;
    fld(g3, "chroma_qp_index_offset", dec_i(cqpo as i64), s, br.bit_pos(), "");
    let deblock = read_flag_field(br, g4, "deblocking_filter_control_present_flag", "切片头是否携带环路滤波参数")?;
    let cip = read_flag_field(br, g4, "constrained_intra_pred_flag", "")?;
    let rpc = read_flag_field(br, g4, "redundant_pic_cnt_present_flag", "")?;
    assert(rows(g2.fields@) =~= rows(old(g2).fields@) + pps_main_rows(old(br).data(), old(br).cur()).0);
    assert(rows(g3.fields@) =~= rows(old(g3).fields@) + pps_main_rows(old(br).data(), old(br).cur()).1);
    assert(rows(g4.fields@) =~= rows(old(g4).fields@) + pps_main_rows(old(br).data(), old(br).cur()).2);
    *pps = Pps {
        num_ref_idx_l0_default_active_minus1: l0,
        num_ref_idx_l1_default_active_minus1: l1,
        weighted_pred_flag: wp,
        weighted_bipred_idc: wb_idc,
        pic_init_qp_minus26: init_qp,
        pic_init_qs_minus26: init_qs,
        chroma_qp_index_offset: cqpo,
        deblocking_filter_control_present_flag: deblock,
        constrained_intra_pred_flag: cip,
        redundant_pic_cnt_present_flag: rpc,
        ..*pps
    };
    Ok(())
}

/// Reads and lists the PPS scaling matrix; each list present adds a
/// warning.
#[verifier::rlimit(30)]
fn pps_scaling_exec(
    br: &mut BitReader,
    g4: &mut FieldGroup,
    warnings: &mut Vec<String>,
    count: usize,
) -> (r: Result<(), String>)
    requires
        old(br).wf(),
        count == 8 || count == 12,
    ensures
        r is Err ==> reader_error(old(br).data(), r->Err_0@),
        final(br).wf(),
        final(br).data() == old(br).data(),
        final(g4).title == old(g4).title,
        r is Ok <==> scaling_matrix(old(br).data(), old(br).cur(), 0, count as nat) is Some,
        r is Ok ==> final(br).cur() == scaling_matrix(old(br).data(), old(br).cur(), 0, count as nat),
        r is Ok ==> lines_text(final(warnings)@) == lines_text(old(warnings)@) + repeated(
            scaling_warning(),
            lists_present(old(br).data(), old(br).cur(), 0, count as nat),
        ),
        final(g4).note == old(g4).note,
        r is Ok ==> rows(final(g4).fields@) == rows(old(g4).fields@) + matrix_rows(
            old(br).data(),
            old(br).cur(),
            0,
            count as nat,
        ),
{
    let ghost d = br.data();
    let ghost cm = br.cur();
    let ghost mut k: nat = 0;
    let mut i: usize = 0;
    assert(lines_text(warnings@) =~= lines_text(old(warnings)@) + repeated(scaling_warning(), 0));
    while i < count
        invariant
            br.wf(),
            br.data() == d,
            old(br).data() == d,
            old(br).cur() == cm,
            g4.title == old(g4).title,
            i <= count,
            count == 8 || count == 12,
            scaling_matrix(d, cm, 0, count as nat) == scaling_matrix(
                d,
                br.cur(),
                i as nat,
                count as nat,
            ),
            lines_text(warnings@) == lines_text(old(warnings)@) + repeated(scaling_warning(), k),
            lists_present(d, cm, 0, count as nat) == k + lists_present(d, br.cur(), i as nat, count as nat),
            g4.note == old(g4).note,
            rows(g4.fields@) + matrix_rows(d, br.cur(), i as nat, count as nat) == rows(old(g4).fields@)
                + matrix_rows(d, cm, 0, count as nat),
        decreases count - i,
    {
        let ghost ci = br.cur();
        let ghost rows0 = rows(g4.fields@);
        let name = num_text("pic_scaling_list_present_flag[", i as u64, "]");
        let present = match read_flag_field(br, g4, name.as_str(), "") {
            Ok(v) => v,
            Err(e) => {
                proof {
                    lemma_scaling_matrix_none(d, (i + 1) as nat, count as nat);
                }
                return Err(e);
            },
        };
        let ghost c2 = br.cur();
        let ghost rows1 = rows(g4.fields@);
        if present {
            let ghost before = lines_text(warnings@);
            warnings.push(String::from_str("PPS 含缩放列表，按 8 个列表（chroma≠3）假设解析"));
            assert(lines_text(warnings@) =~= lines_text(old(warnings)@) + repeated(scaling_warning(), k + 1)) by {
                assert(lines_text(warnings@) =~= before.push(scaling_warning()));
            }
            proof {
                k = k + 1;
            }
            let size: usize = if i < 6 {
                16
            } else {
                64
            };
            match parse_scaling_list(br, size, g4, "") {
                Ok(()) => {},
                Err(e) => {
                    proof {
                        lemma_scaling_matrix_none(d, (i + 1) as nat, count as nat);
                    }
                    return Err(e);
                },
            }
            assert(rows0 + matrix_rows(d, ci, i as nat, count as nat) =~= rows(g4.fields@) + matrix_rows(
                d,
                br.cur(),
                (i + 1) as nat,
                count as nat,
            ));
        } else {
            assert(rows0 + matrix_rows(d, ci, i as nat, count as nat) =~= rows(g4.fields@) + matrix_rows(
                d,
                br.cur(),
                (i + 1) as nat,
                count as nat,
            ));
        }
        i += 1;
    }
    assert(matrix_rows(d, br.cur(), i as nat, count as nat) =~= Seq::<FieldRow>::empty());
    assert(rows(g4.fields@) =~= rows(g4.fields@) + matrix_rows(d, br.cur(), i as nat, count as nat));
    Ok(())
}

#[verifier::rlimit(30)]
fn pps_ext_exec(
    br: &mut BitReader,
    pps: &mut Pps,
    g3: &mut FieldGroup,
    g4: &mut FieldGroup,
    warnings: &mut Vec<String>,
    hint: Option<u32>,
) -> (r: Result<(), String>)
    requires
        old(br).wf(),
    ensures
        r is Err ==> reader_error(old(br).data(), r->Err_0@),
        final(br).wf(),
        final(br).data() == old(br).data(),
        final(g3).title == old(g3).title,
        final(g4).title == old(g4).title,
        r is Ok <==> pps_ext(old(br).data(), old(br).cur(), *old(pps), hint).1 is Some,
        r is Ok ==> *final(pps) == pps_ext(old(br).data(), old(br).cur(), *old(pps), hint).0
            && final(br).cur() == pps_ext(old(br).data(), old(br).cur(), *old(pps), hint).1,
        r is Ok ==> lines_text(final(warnings)@) == lines_text(old(warnings)@) + repeated(
            scaling_warning(),
            ext_lists(old(br).data(), old(br).cur(), hint),
        ),
        final(g3).note == old(g3).note,
        final(g4).note == old(g4).note,
        r is Ok ==> rows(final(g3).fields@) == rows(old(g3).fields@) + pps_ext_rows(old(br).data(), old(br).cur(), hint).0,
        r is Ok ==> rows(final(g4).fields@) == rows(old(g4).fields@) + pps_ext_rows(old(br).data(), old(br).cur(), hint).1,
{
    let ghost d = br.data();
    let ghost c0 = br.cur();
    if !br.more_rbsp_data() {
        assert(lines_text(warnings@) =~= lines_text(old(warnings)@) + repeated(scaling_warning(), 0));
        assert(rows(g3.fields@) =~= rows(old(g3).fields@) + pps_ext_rows(d, c0, hint).0);
        assert(rows(g4.fields@) =~= rows(old(g4).fields@) + pps_ext_rows(d, c0, hint).1);
        return Ok(());
    }
    let t8 = read_flag_field(br, g4, "transform_8x8_mode_flag", "8x8 变换（High 档次，Baseline 无）")?;
    let scaling = read_flag_field(br, g4, "pic_scaling_matrix_present_flag", "")?;
    let ghost c2 = br.cur();
    let ghost g4_head = rows(g4.fields@);
    assert(g4_head =~= rows(old(g4).fields@) + seq![
        body_row("transform_8x8_mode_flag"@, flag_text(t8), c0->0, rd_flag(d, c0).1->0, "8x8 变换（High 档次，Baseline 无）"@),
        body_row("pic_scaling_matrix_present_flag"@, flag_text(scaling), rd_flag(d, c0).1->0, c2->0, ""@),
    ]);
    if scaling {
        let chroma = match hint {
            Some(v) => v,
            None => 1,
        };
        let count: usize = if chroma != 3 {
            8
        } else {
            12
        };
        pps_scaling_exec(br, g4, warnings, count)?;
    } else {
        assert(lines_text(warnings@) =~= lines_text(old(warnings)@) + repeated(scaling_warning(), 0));
    }
    assert(rows(g4.fields@) =~= rows(old(g4).fields@) + pps_ext_rows(d, c0, hint).1);
    if br.more_rbsp_data() {
        let s = br.bit_pos();
        let cqpo2 = br.read_se()?;
        fld(g3, "second_chroma_qp_index_offset", dec_i(cqpo2 as i64), s, br.bit_pos(), "");
    }
    assert(rows(g3.fields@) =~= rows(old(g3).fields@) + pps_ext_rows(d, c0, hint).0);
    *pps = Pps { transform_8x8_mode_flag: Some(t8), ..*pps };
    Ok(())
}

/// Parses a PPS RBSP body (without the NAL unit header). `sps_chroma_hint`
/// is the chroma format of its SPS, when known, which sets the number of
/// scaling lists.
#[verifier::rlimit(30)]
pub fn parse_pps(body: &[u8], sps_chroma_hint: Option<u32>) -> (r: Result<PpsParse, String>)
    requires
        readable(body@),
    ensures
        body@.len() == 0 ==> (r matches Err(e) && e@ == "PPS 载荷为空"@),
        body@.len() > 0 ==> (r matches Err(e) ==> reader_error(body@, e@)),
        r is Ok <==> body@.len() > 0 && pps_result(body@, sps_chroma_hint) is Some,
        r is Ok ==> {
            let p = r->Ok_0;
            &&& p.pps == pps_result(body@, sps_chroma_hint).unwrap()
            &&& titles(p.groups@) == if p.pps.num_slice_groups_minus1 != 0 {
                seq!["PPS · 基础信息"@, "PPS · 熵编码与预测"@]
            } else {
                seq!["PPS · 基础信息"@, "PPS · 熵编码与预测"@, "PPS · 量化"@, "PPS · 其他控制"@]
            }
            &&& lines_text(p.warnings@) == pps_warnings(body@, sps_chroma_hint)
            &&& groups_view(p.groups@) == pps_groups(body@, sps_chroma_hint)
        },
{
    proof {
        reveal(pps_groups);
        reveal(pps_warnings);
    }
    if body.len() == 0 {
        return Err(String::from_str("PPS 载荷为空"));
    }
    let mut br = BitReader::new(body);
    let mut warnings: Vec<String> = Vec::new();
    let mut g1 = FieldGroup::new("PPS · 基础信息");
    let mut g2 = FieldGroup::new("PPS · 熵编码与预测");
    let mut g3 = FieldGroup::new("PPS · 量化");
    let mut g4 = FieldGroup::new("PPS · 其他控制");

    let mut pps = pps_head_exec(&mut br, &mut g1, &mut g2)?;
    if pps.num_slice_groups_minus1 != 0 {
        warnings.push(String::from_str("该 PPS 使用多切片组（FMO），后续字段未解析（v1 不支持 FMO）"));
        g1.note = Some(String::from_str("检测到 FMO，解析提前结束"));
        let mut groups: Vec<FieldGroup> = Vec::new();
        groups.push(g1);
        groups.push(g2);
        proof {
            assert(titles(groups@) =~= seq!["PPS · 基础信息"@, "PPS · 熵编码与预测"@]);
        }
        assert(lines_text(warnings@) =~= seq![fmo_warning()]);
        assert(groups_view(groups@) =~= pps_groups(body@, sps_chroma_hint));
        return Ok(PpsParse { pps, groups, warnings });
    }
    pps_main_exec(&mut br, &mut pps, &mut g2, &mut g3, &mut g4)?;
    assert(lines_text(warnings@) =~= Seq::<Seq<char>>::empty());
    pps_ext_exec(&mut br, &mut pps, &mut g3, &mut g4, &mut warnings, sps_chroma_hint)?;
    assert(lines_text(warnings@) =~= pps_warnings(body@, sps_chroma_hint));
    assert(rows(g1.fields@) =~= pps_head_rows(body@).0);
    let mut groups: Vec<FieldGroup> = Vec::new();
    groups.push(g1);
    groups.push(g2);
    groups.push(g3);
    groups.push(g4);
    proof {
        assert(titles(groups@) =~= seq![
            "PPS · 基础信息"@,
            "PPS · 熵编码与预测"@,
            "PPS · 量化"@,
            "PPS · 其他控制"@,
        ]);
        assert(groups_view(groups@) =~= pps_groups(body@, sps_chroma_hint));
    }
    Ok(PpsParse { pps, groups, warnings })
}

} // verus!
