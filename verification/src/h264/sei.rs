//! SEI (supplemental enhancement information) parsing: the list of payload
//! types, with a summary of the content of the common ones.

use vstd::prelude::*;
use crate::h264::bitreader::{BitReader, bits_val, nbits, more_data_after, readable, rd_bits, rd_ue};
use crate::h264::common::{Field, FieldGroup, field_is};
use crate::text::{dec_chars, hex2, push_dec, push_hex2, push_char, num_text, num_seq};
use crate::mp4::lines_text;

verus! {

broadcast use crate::h264::bitreader::group_readers;

/// The name of an SEI payload type.
pub open spec fn sei_type_label(t: u32) -> Seq<char> {
    if t == 0 {
        "缓冲周期 buffering_period"@
    } else if t == 1 {
        "图像时序 pic_timing"@
    } else if t == 2 {
        "平移扫描 pan_scan_rect"@
    } else if t == 3 {
        "填充数据 filler_data"@
    } else if t == 4 {
        "用户数据 ITU-T T.35"@
    } else if t == 5 {
        "用户数据未注册 user_data_unregistered"@
    } else if t == 6 {
        "恢复点 recovery_point"@
    } else if t == 7 {
        "参考图像标记重复 dec_ref_pic_marking_repetition"@
    } else if t == 8 {
        "SPS/PPS 时序 sps_pps_timing"@
    } else if 9 <= t <= 16 {
        "保留"@
    } else if t == 17 {
        "渐进式细化分段起始"@
    } else if t == 18 {
        "渐进式细化分段结束"@
    } else if t == 19 {
        "运动约束切片组"@
    } else if t == 20 {
        "Film Grain 特性"@
    } else if t == 21 {
        "去块滤波显示"@
    } else if t == 22 {
        "立体帧信息"@
    } else if t == 23 {
        "帧打包"@
    } else if t == 24 {
        "显示方向"@
    } else if t == 25 {
        "3D 位移"@
    } else if t == 26 {
        "深度信息"@
    } else if 27 <= t <= 31 {
        "保留"@
    } else if t == 32 {
        "场景信息"@
    } else if t == 33 {
        "子序列信息"@
    } else if t == 34 {
        "子序列层信息"@
    } else if t == 37 {
        "渐进细化扇区信息"@
    } else if t == 45 {
        "帧间距立体信息"@
    } else if t == 46 {
        "立体适配"@
    } else if t == 47 {
        "内容色域"@
    } else if 48 <= t <= 511 {
        "保留"@
    } else {
        "保留/未定义"@
    }
}

/// "t · name".
pub open spec fn sei_type_text(t: u32) -> Seq<char> {
    dec_chars(t as nat) + " · "@ + sei_type_label(t)
}

pub fn sei_type_name(t: u32) -> (r: String)
    ensures
        r@ == sei_type_text(t),
{
    let name = match t {
        0 => "缓冲周期 buffering_period",
        1 => "图像时序 pic_timing",
        2 => "平移扫描 pan_scan_rect",
        3 => "填充数据 filler_data",
        4 => "用户数据 ITU-T T.35",
        5 => "用户数据未注册 user_data_unregistered",
        6 => "恢复点 recovery_point",
        7 => "参考图像标记重复 dec_ref_pic_marking_repetition",
        8 => "SPS/PPS 时序 sps_pps_timing",
        9..=16 => "保留",
        17 => "渐进式细化分段起始",
        18 => "渐进式细化分段结束",
        19 => "运动约束切片组",
        20 => "Film Grain 特性",
        21 => "去块滤波显示",
        22 => "立体帧信息",
        23 => "帧打包",
        24 => "显示方向",
        25 => "3D 位移",
        26 => "深度信息",
        27..=28 => "保留",
        29..=31 => "保留",
        32 => "场景信息",
        33 => "子序列信息",
        34 => "子序列层信息",
        37 => "渐进细化扇区信息",
        45 => "帧间距立体信息",
        46 => "立体适配",
        47 => "内容色域",
        48..=511 => "保留",
        _ => "保留/未定义",
    };
    let mut s = crate::text::dec(t as u64);
    s.append(" · ");
    s.append(name);
    assert(s@ =~= sei_type_text(t));
    s
}

/// The largest value of an SEI type or size.
pub open spec fn ff_limit() -> int {
    0x400_0000
}

/// Reads an 0xFF-extended number at bit `p` with `acc` read so far: each
/// 0xFF byte adds 255, and the first byte below 0xFF adds itself and ends
/// it. `None` when the data ends first or the value passes 2^26.
pub open spec fn ff_number(d: Seq<u8>, p: int, acc: int) -> Option<(int, int)>
    decreases nbits(d) - p,
{
    if p < 0 || p + 8 > nbits(d) {
        None
    } else {
        let b = bits_val(d, p, 8) as int;
        let v = acc + b;
        if v > ff_limit() {
            None
        } else if b != 255 {
            Some((v, p + 8))
        } else {
            ff_number(d, p + 8, v)
        }
    }
}

/// Why an 0xFF-extended number at bit `p`, with `acc` read so far, cannot
/// be read: the data ends first, or the value passes 2^26.
pub open spec fn ff_error(d: Seq<u8>, p: int, acc: int) -> Seq<char>
    decreases nbits(d) - p,
{
    if p < 0 || p + 8 > nbits(d) {
        "SEI 编码字节不完整"@
    } else {
        let b = bits_val(d, p, 8) as int;
        let v = acc + b;
        if v > ff_limit() {
            "SEI 编码数值异常过大（>64M），疑似损坏码流"@
        } else if b != 255 {
            seq![]
        } else {
            ff_error(d, p + 8, v)
        }
    }
}

/// One listed SEI payload: its type, its size in bytes, and the bit at
/// which it starts.
pub struct SeiItem {
    pub ptype: u32,
    pub psize: u32,
    pub start: int,
}

/// Why the listing of payloads stopped.
pub enum SeiStop {
    /// No data is left besides the trailing bits.
    End,
    /// 32 payloads were listed.
    TooMany,
    /// A payload type or size could not be read.
    BadNumber,
    /// A payload is longer than the data left.
    Overrun,
}

/// The payload whose header starts at bit `p`, with the bit after its
/// bytes, or why it cannot be read.
pub open spec fn sei_step(d: Seq<u8>, p: int) -> Result<(SeiItem, int), SeiStop> {
    match ff_number(d, p, 0) {
        None => Err(SeiStop::BadNumber),
        Some((t, p1)) => match ff_number(d, p1, 0) {
            None => Err(SeiStop::BadNumber),
            Some((sz, p2)) => if nbits(d) - p2 < sz * 8 {
                Err(SeiStop::Overrun)
            } else {
                Ok((SeiItem { ptype: t as u32, psize: sz as u32, start: p2 }, p2 + sz * 8))
            },
        },
    }
}

/// The payloads listed from bit `p`, `count` having been listed before,
/// and why the listing stops.
pub open spec fn sei_items(d: Seq<u8>, p: int, count: nat) -> (Seq<SeiItem>, SeiStop)
    decreases 32 - count,
{
    if !more_data_after(d, p) {
        (seq![], SeiStop::End)
    } else if count >= 32 {
        (seq![], SeiStop::TooMany)
    } else {
        match sei_step(d, p) {
            Err(stop) => (seq![], stop),
            Ok((it, next)) => {
                let (rest, stop) = sei_items(d, next, count + 1);
                (seq![it] + rest, stop)
            },
        }
    }
}

/// The warning of a payload whose header starts at bit `p` and cannot be
/// listed.
pub open spec fn sei_step_warning(d: Seq<u8>, p: int) -> Seq<char> {
    match ff_number(d, p, 0) {
        None => ff_error(d, p, 0),
        Some((t, p1)) => match ff_number(d, p1, 0) {
            None => ff_error(d, p1, 0),
            Some((sz, _p2)) => num_seq("SEI 载荷 "@, t as nat, " 声明 "@) + dec_chars(sz as nat) + " 字节，超出剩余数据，解析停止"@,
        },
    }
}

/// The warnings of the listing of payloads from bit `p`, `count` having
/// been listed before: none when it reaches the trailing bits, else the
/// one that stops it.
pub open spec fn sei_warnings(d: Seq<u8>, p: int, count: nat) -> Seq<Seq<char>>
    decreases 32 - count,
{
    if !more_data_after(d, p) {
        seq![]
    } else if count >= 32 {
        seq!["SEI 载荷超过 32 个，仅列出前 32 个"@]
    } else {
        match sei_step(d, p) {
            Err(_) => seq![sei_step_warning(d, p)],
            Ok((_it, next)) => sei_warnings(d, next, count + 1),
        }
    }
}

/// A byte that shows as itself: printable ASCII.
pub open spec fn printable(b: u8) -> bool {
    0x20 <= b <= 0x7E
}

/// The number of printable bytes of `s`.
pub open spec fn count_printable(s: Seq<u8>) -> nat
    decreases s.len(),
{
    if s.len() == 0 {
        0
    } else {
        count_printable(s.drop_last()) + if printable(s.last()) {
            1nat
        } else {
            0nat
        }
    }
}

/// The characters of `s`: printable bytes as themselves, others as `·`.
pub open spec fn shown_chars(s: Seq<u8>) -> Seq<char>
    decreases s.len(),
{
    if s.len() == 0 {
        seq![]
    } else {
        shown_chars(s.drop_last()).push(
            if printable(s.last()) {
                s.last() as char
            } else {
                '·'
            },
        )
    }
}

/// Mostly-text data (at least 70% printable) shown in quotes, its first 96
/// bytes and "…" when longer.
pub open spec fn ascii_sniff_text(s: Seq<u8>) -> Option<Seq<char>> {
    if s.len() == 0 || count_printable(s) * 10 < s.len() * 7 {
        None
    } else {
        let end: int = if s.len() < 96 {
            s.len() as int
        } else {
            96
        };
        Some(
            "\""@ + shown_chars(s.take(end)) + (if s.len() > end {
                "…"@
            } else {
                ""@
            }) + "\""@,
        )
    }
}

fn ascii_sniff(data: &[u8]) -> (r: Option<String>)
    ensures
        opt_seq(r) == ascii_sniff_text(data@),
{
    let ghost d = data@;
    if data.len() == 0 {
        return None;
    }
    let mut printable_count: usize = 0;
    let mut i: usize = 0;
    while i < data.len()
        invariant
            d == data@,
            i <= d.len(),
            printable_count == count_printable(d.take(i as int)),
            printable_count <= i,
        decreases d.len() - i,
    {
        assert(d.take(i + 1).drop_last() =~= d.take(i as int));
        if data[i] >= 0x20 && data[i] <= 0x7E {
            printable_count += 1;
        }
        i += 1;
    }
    assert(d.take(d.len() as int) =~= d);
    if (printable_count as u128) * 10 < (data.len() as u128) * 7 {
        return None;
    }
    let end = if data.len() < 96 {
        data.len()
    } else {
        96
    };
    let mut s = String::from_str("\"");
    let mut j: usize = 0;
    while j < end
        invariant
            d == data@,
            end <= d.len(),
            j <= end,
            s@ == "\""@ + shown_chars(d.take(j as int)),
        decreases end - j,
    {
        let b = data[j];
        let c = if b >= 0x20 && b <= 0x7E {
            b as char
        } else {
            '·'
        };
        push_char(&mut s, c);
        assert(d.take(j + 1).drop_last() =~= d.take(j as int));
        assert(s@ =~= "\""@ + shown_chars(d.take(j + 1)));
        j += 1;
    }
    if data.len() > end {
        s.append("…");
    } else {
        s.append("");
    }
    s.append("\"");
    Some(s)
}

/// The text of an optional string.
pub open spec fn opt_seq(o: Option<String>) -> Option<Seq<char>> {
    match o {
        Some(s) => Some(s@),
        None => None,
    }
}

/// The upper-case hexadecimal digits of `s`, with no separator.
pub open spec fn hex_run(s: Seq<u8>) -> Seq<char>
    decreases s.len(),
{
    if s.len() == 0 {
        seq![]
    } else {
        hex_run(s.drop_last()) + hex2(s.last())
    }
}

/// "，内容 …" after a summary, when the data is mostly text.
pub open spec fn content_suffix(s: Seq<u8>) -> Seq<char> {
    match ascii_sniff_text(s) {
        Some(t) => "，内容 "@ + t,
        None => ""@,
    }
}

/// "{n} 字节".
pub open spec fn byte_count_text(n: nat) -> Seq<char> {
    dec_chars(n) + " 字节"@
}

/// The summary of a recovery point payload, when its four fields can be read.
pub open spec fn recovery_text(p: Seq<u8>) -> Option<Seq<char>> {
    let (cnt, c) = rd_ue(p, Some(0));
    let (exact, c) = rd_bits(p, c, 1);
    let (broken, c) = rd_bits(p, c, 1);
    let (changing, c) = rd_bits(p, c, 2);
    if c is Some {
        Some(
            "recovery_frame_cnt="@ + dec_chars(cnt as nat) + ", exact="@ + dec_chars(exact as nat)
                + ", broken="@ + dec_chars(broken as nat) + ", changing="@ + dec_chars(
                changing as nat,
            ),
        )
    } else {
        None
    }
}

/// The summary of a payload of type `t`: the UUID and text of unregistered
/// user data (5), the country code and text of registered user data (4),
/// whether filler data (3) is all zero, the fields of a recovery point
/// (6), otherwise its size.
pub open spec fn payload_text(t: u32, p: Seq<u8>) -> Seq<char> {
    if t == 5 {
        let n: int = if p.len() < 16 {
            p.len() as int
        } else {
            16
        };
        "UUID="@ + hex_run(p.take(n)) + content_suffix(p.skip(n))
    } else if t == 4 {
        let country: u8 = if p.len() > 0 {
            p[0]
        } else {
            0
        };
        let rest = if p.len() > 0 {
            p.skip(1)
        } else {
            p
        };
        "国家码="@ + dec_chars(country as nat) + content_suffix(rest)
    } else if t == 3 {
        byte_count_text(p.len()) + if (forall|i: int| 0 <= i < p.len() ==> p[i] == 0) {
            "全 0x00"@
        } else {
            "（非零填充，异常）"@
        }
    } else if t == 6 {
        match recovery_text(p) {
            Some(s) => s,
            None => byte_count_text(p.len()),
        }
    } else {
        byte_count_text(p.len())
    }
}

fn push_content(s: &mut String, rest: &[u8])
    ensures
        final(s)@ == old(s)@ + content_suffix(rest@),
{
    match ascii_sniff(rest) {
        Some(t) => {
            s.append("，内容 ");
            s.append(t.as_str());
            assert(final(s)@ =~= old(s)@ + content_suffix(rest@));
        },
        None => {
            proof {
                reveal_strlit("");
            }
            assert(content_suffix(rest@) =~= Seq::<char>::empty());
            assert(final(s)@ =~= old(s)@ + content_suffix(rest@));
        },
    }
}

fn byte_count(n: usize) -> (r: String)
    ensures
        r@ == byte_count_text(n as nat),
{
    let s = num_text("", n as u64, " 字节");
    proof {
        reveal_strlit("");
        crate::text::lemma_num_seq(""@, n as nat, " 字节"@);
        assert(""@ + dec_chars(n as nat) =~= dec_chars(n as nat));
    }
    s
}

fn recovery_summary(payload: &[u8]) -> (r: Option<String>)
    requires
        readable(payload@),
    ensures
        opt_seq(r) == recovery_text(payload@),
{
    let mut br = BitReader::new(payload);
    let cnt = match br.read_ue() {
        Ok(v) => v,
        Err(_) => {
            return None;
        },
    };
    let exact = match br.read_bit() {
        Ok(v) => v,
        Err(_) => {
            return None;
        },
    };
    let broken = match br.read_bit() {
        Ok(v) => v,
        Err(_) => {
            return None;
        },
    };
    let changing = match br.read_bits(2) {
        Ok(v) => v,
        Err(_) => {
            return None;
        },
    };
    let mut s = num_text("recovery_frame_cnt=", cnt as u64, ", exact=");
    push_dec(&mut s, exact as u64);
    s.append(", broken=");
    push_dec(&mut s, broken as u64);
    s.append(", changing=");
    push_dec(&mut s, changing as u64);
    proof {
        crate::text::lemma_num_seq("recovery_frame_cnt="@, cnt as nat, ", exact="@);
        assert(s@ =~= recovery_text(payload@).unwrap());
    }
    Some(s)
}

/// The summary of a payload of type `ptype`.
pub fn describe_payload(ptype: u32, payload: &[u8]) -> (r: String)
    requires
        readable(payload@),
    ensures
        r@ == payload_text(ptype, payload@),
{
    let ghost p = payload@;
    if ptype == 5 {
        let n = if payload.len() < 16 {
            payload.len()
        } else {
            16
        };
        let mut s = String::from_str("UUID=");
        let mut i: usize = 0;
        while i < n
            invariant
                p == payload@,
                n <= p.len(),
                i <= n,
                s@ == "UUID="@ + hex_run(p.take(i as int)),
            decreases n - i,
        {
            push_hex2(&mut s, payload[i]);
            assert(p.take(i + 1).drop_last() =~= p.take(i as int));
            assert(s@ =~= "UUID="@ + hex_run(p.take(i + 1)));
            i += 1;
        }
        let rest = &payload[n..payload.len()];
        assert(rest@ =~= p.skip(n as int));
        push_content(&mut s, rest);
        return s;
    } else if ptype == 4 {
        let country: u8 = if payload.len() > 0 {
            payload[0]
        } else {
            0
        };
        let mut s = num_text("国家码=", country as u64, "");
        proof {
            reveal_strlit("");
            crate::text::lemma_num_seq("国家码="@, country as nat, ""@);
        }
        let rest = if payload.len() > 0 {
            &payload[1..payload.len()]
        } else {
            payload
        };
        push_content(&mut s, rest);
        proof {
            if p.len() > 0 {
                assert(p.subrange(1, p.len() as int) =~= p.skip(1));
            }
            assert(s@ =~= payload_text(ptype, p));
        }
        return s;
    } else if ptype == 3 {
        let mut all_zero = true;
        let mut i: usize = 0;
        while i < payload.len()
            invariant
                p == payload@,
                i <= p.len(),
                all_zero == (forall|j: int| 0 <= j < i ==> p[j] == 0),
            decreases p.len() - i,
        {
            if payload[i] != 0 {
                all_zero = false;
            }
            i += 1;
        }
        let mut s = byte_count(payload.len());
        if all_zero {
            s.append("全 0x00");
        } else {
            s.append("（非零填充，异常）");
        }
        return s;
    } else if ptype == 6 {
        match recovery_summary(payload) {
            Some(s) => {
                return s;
            },
            None => {
                return byte_count(payload.len());
            },
        }
    }
    byte_count(payload.len())
}

/// An 0xFF-extended number spans whole bytes.
pub proof fn lemma_ff_number(d: Seq<u8>, p: int, acc: int)
    ensures
        ff_number(d, p, acc) matches Some((v, q)) ==> p < q && (q - p) % 8 == 0,
    decreases nbits(d) - p,
{
    if !(p < 0 || p + 8 > nbits(d)) {
        let b = bits_val(d, p, 8) as int;
        let v = acc + b;
        if !(v > ff_limit()) && b == 255 {
            lemma_ff_number(d, p + 8, v);
        }
    }
}

proof fn lemma_ff_run(d: Seq<u8>, o: int, m: nat, acc: int)
    requires
        0 <= o,
        o + m < d.len(),
        forall|i: int| o <= i < o + m ==> d[i] == 255,
        d[o + m] < 255,
        0 <= acc,
        acc + 255 * m + d[o + m] <= ff_limit(),
    ensures
        ff_number(d, 8 * o, acc) == Some((acc + 255 * m + d[o + m], 8 * (o + m + 1))),
    decreases m,
{
    crate::h264::bitreader::lemma_byte_at(d, o);
    if m > 0 {
        assert(d[o] == 255);
        lemma_ff_run(d, o + 1, (m - 1) as nat, acc + 255);
        assert(8 * o + 8 == 8 * (o + 1));
    }
}

/// An 0xFF-extended SEI number at byte `o` is 255 for each of its leading
/// 0xFF bytes plus the first byte below 0xFF, which ends it: FF FF 5A is
/// 600, read over three bytes.
pub proof fn lemma_ff_number_bytes(d: Seq<u8>, o: int, m: nat)
    requires
        0 <= o,
        o + m < d.len(),
        forall|i: int| o <= i < o + m ==> d[i] == 255,
        d[o + m] < 255,
        255 * m + d[o + m] <= ff_limit(),
    ensures
        ff_number(d, 8 * o, 0) == Some((255 * m + d[o + m], 8 * (o + m + 1))),
{
    lemma_ff_run(d, o, m, 0);
}

/// Reads an 0xFF-extended number.
fn read_ff_number(br: &mut BitReader) -> (r: Result<u32, String>)
    requires
        old(br).wf(),
    ensures
        final(br).wf(),
        final(br).data() == old(br).data(),
        r is Ok <==> ff_number(old(br).data(), old(br).pos(), 0) is Some,
        r is Ok ==> r->Ok_0 == ff_number(old(br).data(), old(br).pos(), 0).unwrap().0
            && final(br).pos() == ff_number(old(br).data(), old(br).pos(), 0).unwrap().1,
        r is Ok ==> r->Ok_0 <= ff_limit(),
        r is Err ==> r->Err_0@ == ff_error(old(br).data(), old(br).pos(), 0),
{
    let ghost d = br.data();
    let ghost p0 = br.pos();
    let mut value: u32 = 0;
    loop
        invariant
            br.wf(),
            br.data() == d,
            old(br).data() == d,
            old(br).pos() == p0,
            value <= ff_limit(),
            ff_number(d, p0, 0) == ff_number(d, br.pos(), value as int),
            ff_error(d, p0, 0) == ff_error(d, br.pos(), value as int),
        decreases nbits(d) - br.pos(),
    {
        reveal(rd_bits);
        if !br.has_at_least(8) {
            return Err(String::from_str("SEI 编码字节不完整"));
        }
        let b = match br.read_bits(8) {
            Ok(b) => b,
            Err(e) => {
                return Err(e);
            },
        };
        proof {
            crate::h264::bitreader::lemma_bits_val_bound(d, br.pos() - 8, 8);
            assert(vstd::arithmetic::power2::pow2(8) == 256) by {
                vstd::arithmetic::power2::lemma2_to64();
            }
        }
        value = value + b;
        if value > 0x400_0000 {
            return Err(String::from_str("SEI 编码数值异常过大（>64M），疑似损坏码流"));
        }
        if b != 0xFF {
            return Ok(value);
        }
    }
}

/// The text "bit {start} · {size}字节".
pub open spec fn payload_bits_text(start: int, size: nat) -> Seq<char> {
    "bit "@ + dec_chars(start as nat) + " · "@ + dec_chars(size) + "字节"@
}

/// The listed name of payload `i` of type `t`.
pub open spec fn payload_name(i: nat, t: u32) -> Seq<char> {
    "载荷#"@ + dec_chars(i) + " "@ + sei_type_text(t)
}

/// The bytes of a listed payload.
pub open spec fn payload_bytes(d: Seq<u8>, it: SeiItem) -> Seq<u8> {
    d.subrange(it.start / 8, it.start / 8 + it.psize)
}

/// Field `i` lists payload `it`.
pub open spec fn lists_payload(f: Field, i: nat, d: Seq<u8>, it: SeiItem) -> bool {
    field_is(
        f,
        payload_name(i, it.ptype),
        payload_text(it.ptype, payload_bytes(d, it)),
        Some(payload_bits_text(it.start, it.psize as nat)),
        ""@,
    )
}

/// Reads the payload whose header is at the reader's position and lists it
/// as field number `count`; on failure, the warning that stops the listing.
#[verifier::rlimit(40)]
fn read_payload(br: &mut BitReader, body: &[u8], count: usize) -> (r: Result<Field, String>)
    requires
        old(br).wf(),
        old(br).data() == body@,
        old(br).pos() % 8 == 0,
        count < 32,
    ensures
        final(br).wf(),
        final(br).data() == body@,
        r is Ok <==> sei_step(body@, old(br).pos()) is Ok,
        r is Ok ==> final(br).pos() == sei_step(body@, old(br).pos())->Ok_0.1
            && final(br).pos() % 8 == 0
            && lists_payload(r->Ok_0, count as nat, body@, sei_step(body@, old(br).pos())->Ok_0.0),
        r is Err ==> r->Err_0@ == sei_step_warning(body@, old(br).pos()),
{
    let ghost d = body@;
    let ghost p0 = br.pos();
    proof {
        lemma_ff_number(d, p0, 0);
    }
    let ptype = match read_ff_number(br) {
        Ok(v) => v,
        Err(e) => {
            return Err(e);
        },
    };
    proof {
        lemma_ff_number(d, br.pos(), 0);
    }
    let psize = match read_ff_number(br) {
        Ok(v) => v,
        Err(e) => {
            return Err(e);
        },
    };
    if br.remaining_bits() < psize as usize * 8 {
        let mut w = num_text("SEI 载荷 ", ptype as u64, " 声明 ");
        push_dec(&mut w, psize as u64);
        w.append(" 字节，超出剩余数据，解析停止");
        assert(w@ =~= sei_step_warning(d, p0));
        return Err(w);
    }
    let start_bit = br.bit_pos();
    let first = start_bit / 8;
    let payload = &body[first..first + psize as usize];
    br.skip_bits(psize as usize * 8);
    let ghost it = SeiItem { ptype, psize, start: start_bit as int };
    let mut name = num_text("载荷#", count as u64, " ");
    name.append(sei_type_name(ptype).as_str());
    let mut bits = num_text("bit ", start_bit as u64, " · ");
    push_dec(&mut bits, psize as u64);
    bits.append("字节");
    let value = describe_payload(ptype, payload);
    let f = Field::new(name.as_str(), value, Some(bits), "");
    proof {
        crate::text::lemma_num_seq("载荷#"@, count as nat, " "@);
        crate::text::lemma_num_seq("bit "@, start_bit as nat, " · "@);
        assert(name@ =~= payload_name(count as nat, ptype));
        assert(opt_text_bits(Some(bits)) =~= Some(payload_bits_text(start_bit as int, psize as nat)));
        assert(payload@ =~= payload_bytes(d, it));
        assert(sei_step(d, p0) == Ok::<(SeiItem, int), SeiStop>((it, br.pos())));
    }
    Ok(f)
}

/// Lists the payloads of an SEI RBSP body: one field per payload (at most
/// 32), with a warning when the listing stops before the trailing bits.
pub fn parse_sei(body: &[u8]) -> (r: (Vec<FieldGroup>, Vec<String>))
    requires
        readable(body@),
    ensures
        r.0@.len() == 1,
        r.0@[0].title@ == "SEI · 载荷列表"@,
        r.0@[0].fields@.len() == sei_items(body@, 0, 0).0.len(),
        forall|i: int|
            0 <= i < r.0@[0].fields@.len() ==> lists_payload(
                #[trigger] r.0@[0].fields@[i],
                i as nat,
                body@,
                sei_items(body@, 0, 0).0[i],
            ),
        r.1@.len() == if sei_items(body@, 0, 0).1 is End {
            0int
        } else {
            1int
        },
        (r.0@[0].note is Some) == (sei_items(body@, 0, 0).0.len() == 0),
        r.0@[0].note matches Some(n) ==> n@ == "未解析出任何 SEI 载荷"@,
        lines_text(r.1@) == sei_warnings(body@, 0, 0),
{
    let ghost d = body@;
    let mut br = BitReader::new(body);
    let mut g = FieldGroup::new("SEI · 载荷列表");
    let mut warnings: Vec<String> = Vec::new();
    let mut count: usize = 0;
    let ghost mut items: Seq<SeiItem> = seq![];
    loop
        invariant_except_break
            br.wf(),
            br.data() == d,
            d == body@,
            br.pos() % 8 == 0,
            count <= 32,
            count == items.len(),
            warnings@.len() == 0,
            g.title@ == "SEI · 载荷列表"@,
            g.note is None,
            g.fields@.len() == count,
            forall|i: int|
                0 <= i < count ==> lists_payload(#[trigger] g.fields@[i], i as nat, d, items[i]),
            sei_items(d, 0, 0).0 == items + sei_items(d, br.pos(), count as nat).0,
            sei_items(d, 0, 0).1 == sei_items(d, br.pos(), count as nat).1,
            sei_warnings(d, 0, 0) == sei_warnings(d, br.pos(), count as nat),
        ensures
            lines_text(warnings@) == sei_warnings(d, 0, 0),
            g.title@ == "SEI · 载荷列表"@,
            g.note is None,
            g.fields@.len() == count,
            count == items.len(),
            items == sei_items(d, 0, 0).0,
            forall|i: int|
                0 <= i < count ==> lists_payload(#[trigger] g.fields@[i], i as nat, d, items[i]),
            warnings@.len() == if sei_items(d, 0, 0).1 is End {
                0int
            } else {
                1int
            },
        decreases 32 - count,
    {
        if !br.more_rbsp_data() {
            assert(items + seq![] =~= items);
            assert(lines_text(warnings@) =~= sei_warnings(d, 0, 0));
            break;
        }
        if count >= 32 {
            warnings.push(String::from_str("SEI 载荷超过 32 个，仅列出前 32 个"));
            assert(items + seq![] =~= items);
            assert(lines_text(warnings@) =~= sei_warnings(d, 0, 0));
            break;
        }
        let ghost p = br.pos();
        let f = match read_payload(&mut br, body, count) {
            Ok(f) => f,
            Err(e) => {
                warnings.push(e);
                assert(items + seq![] =~= items);
                assert(lines_text(warnings@) =~= sei_warnings(d, 0, 0));
                break;
            },
        };
        let ghost it = sei_step(d, p)->Ok_0.0;
        let ghost old_fields = g.fields@;
        g.push(f);
        proof {
            let rest = sei_items(d, br.pos(), (count + 1) as nat);
            assert(items.push(it) + rest.0 =~= items + (seq![it] + rest.0));
            items = items.push(it);
            assert forall|i: int| 0 <= i < count + 1 implies lists_payload(
                #[trigger] g.fields@[i],
                i as nat,
                d,
                items[i],
            ) by {
                if i < count {
                    assert(g.fields@[i] == old_fields[i]);
                }
            }
        }
        count += 1;
    }
    if count == 0 {
        g.note = Some(String::from_str("未解析出任何 SEI 载荷"));
    }
    let mut groups: Vec<FieldGroup> = Vec::new();
    groups.push(g);
    (groups, warnings)
}

/// The text of optional position text.
pub open spec fn opt_text_bits(o: Option<String>) -> Option<Seq<char>> {
    match o {
        Some(s) => Some(s@),
        None => None,
    }
}

} // verus!
