//! The field tables in which every parsed structure (SPS, PPS, slice
//! header, SEI, ...) is shown, and the names of coded values.

use vstd::prelude::*;
use crate::text::{dec, dec_chars, push_dec};

verus! {

/// One syntax element as shown: its name, its value, where it stands
/// (relative to the first byte of the NAL unit, header included) and a
/// description.
#[derive(Debug, Clone)]
pub struct Field {
    pub name: String,
    pub value: String,
    pub bits: Option<String>,
    pub desc: Option<String>,
}

/// A titled group of fields, with an optional note.
#[derive(Debug, Clone)]
pub struct FieldGroup {
    pub title: String,
    pub note: Option<String>,
    pub fields: Vec<Field>,
}

/// The text of an optional string.
pub open spec fn opt_text(o: Option<String>) -> Option<Seq<char>> {
    match o {
        Some(s) => Some(s@),
        None => None,
    }
}

/// A description as stored: none when empty.
pub open spec fn desc_text(desc: Seq<char>) -> Option<Seq<char>> {
    if desc.len() == 0 {
        None
    } else {
        Some(desc)
    }
}

/// The bit-position text "bit {start} · {len}位".
pub open spec fn bits_text(start: nat, len: nat) -> Seq<char> {
    "bit "@ + dec_chars(start) + " · "@ + dec_chars(len) + "位"@
}

/// `f` holds the given name, value, position text and description.
pub open spec fn field_is(
    f: Field,
    name: Seq<char>,
    value: Seq<char>,
    bits: Option<Seq<char>>,
    desc: Seq<char>,
) -> bool {
    &&& f.name@ == name
    &&& f.value@ == value
    &&& opt_text(f.bits) == bits
    &&& opt_text(f.desc) == desc_text(desc)
}

/// A field as it is shown: name, value, position text and description.
pub type FieldRow = (Seq<char>, Seq<char>, Option<Seq<char>>, Option<Seq<char>>);

/// How a field is shown.
pub open spec fn row_of(f: Field) -> FieldRow {
    (f.name@, f.value@, opt_text(f.bits), opt_text(f.desc))
}

/// How the fields of a list are shown.
pub open spec fn rows(fs: Seq<Field>) -> Seq<FieldRow> {
    fs.map_values(|f: Field| row_of(f))
}

/// The row of a field read from bit `s` to bit `e` of a body that starts
/// 8 bits into its NAL unit.
pub open spec fn body_row(name: Seq<char>, value: Seq<char>, s: int, e: int, desc: Seq<char>) -> FieldRow {
    (name, value, Some(bits_text((s + 8) as nat, (e - s) as nat)), desc_text(desc))
}

/// How a group is shown: its title, its note and its rows.
pub open spec fn group_view(g: FieldGroup) -> (Seq<char>, Option<Seq<char>>, Seq<FieldRow>) {
    (g.title@, opt_text(g.note), rows(g.fields@))
}

/// How a list of groups is shown.
pub open spec fn groups_view(gs: Seq<FieldGroup>) -> Seq<(Seq<char>, Option<Seq<char>>, Seq<FieldRow>)> {
    gs.map_values(|g: FieldGroup| group_view(g))
}

impl FieldGroup {
    pub fn new(title: &str) -> (r: FieldGroup)
        ensures
            r.title@ == title@,
            r.note is None,
            r.fields@.len() == 0,
    {
        FieldGroup { title: String::from_str(title), note: None, fields: Vec::new() }
    }

    pub fn push(&mut self, field: Field)
        ensures
            final(self).title == old(self).title,
            final(self).note == old(self).note,
            final(self).fields@ == old(self).fields@.push(field),
    {
        self.fields.push(field);
    }
}

impl Field {
    pub fn new(name: &str, value: String, bits: Option<String>, desc: &str) -> (r: Field)
        ensures
            r.name@ == name@,
            r.value == value,
            r.bits == bits,
            opt_text(r.desc) == desc_text(desc@),
    {
        Field {
            name: String::from_str(name),
            value,
            bits,
            desc: if desc.is_empty() {
                None
            } else {
                Some(String::from_str(desc))
            },
        }
    }
}

/// The position text of a field from bit `start` to bit `end`, shifted by
/// `base` bits.
pub fn bits_range(start: usize, end: usize, base: usize) -> (r: String)
    requires
        start <= end,
        start + base <= usize::MAX,
    ensures
        r@ == bits_text((start + base) as nat, (end - start) as nat),
{
    let mut s = String::from_str("bit ");
    push_dec(&mut s, (start + base) as u64);
    s.append(" · ");
    push_dec(&mut s, (end - start) as u64);
    s.append("位");
    assert(s@ =~= bits_text((start + base) as nat, (end - start) as nat));
    s
}

/// Appends a field read from bit `bit_start` to bit `bit_end` of a body that
/// starts `base` bits into the NAL unit.
pub fn add_field(
    group: &mut FieldGroup,
    name: &str,
    value: String,
    bit_start: usize,
    bit_end: usize,
    base: usize,
    desc: &str,
)
    requires
        bit_start <= bit_end,
        bit_start + base <= usize::MAX,
    ensures
        final(group).title == old(group).title,
        final(group).note == old(group).note,
        final(group).fields@.len() == old(group).fields@.len() + 1,
        final(group).fields@.drop_last() == old(group).fields@,
        field_is(
            final(group).fields@.last(),
            name@,
            value@,
            Some(bits_text((bit_start + base) as nat, (bit_end - bit_start) as nat)),
            desc@,
        ),
{
    let f = Field::new(name, value, Some(bits_range(bit_start, bit_end, base)), desc);
    group.push(f);
    assert(final(group).fields@.drop_last() =~= old(group).fields@);
}

/// `v` followed by the name `n` in brackets: "v (n)".
pub open spec fn labelled(v: Seq<char>, n: Seq<char>) -> Seq<char> {
    v + " ("@ + n + ")"@
}

/// The name of a `profile_idc`.
pub open spec fn profile_label(p: u8) -> Option<Seq<char>> {
    if p == 44 {
        Some("CAVLC 4:4:4"@)
    } else if p == 66 {
        Some("Baseline"@)
    } else if p == 77 {
        Some("Main"@)
    } else if p == 83 {
        Some("Scalable Baseline"@)
    } else if p == 86 {
        Some("Scalable High"@)
    } else if p == 88 {
        Some("Extended"@)
    } else if p == 100 {
        Some("High"@)
    } else if p == 110 {
        Some("High 10"@)
    } else if p == 118 {
        Some("Multiview High"@)
    } else if p == 122 {
        Some("High 4:2:2"@)
    } else if p == 128 {
        Some("Stereo High"@)
    } else if p == 134 {
        Some("MFC Depth High"@)
    } else if p == 135 {
        Some("MFC High"@)
    } else if p == 138 {
        Some("Multiview Depth High"@)
    } else if p == 139 {
        Some("Multiview Deep 3D High"@)
    } else if p == 244 {
        Some("High 4:4:4 Predictive"@)
    } else {
        None
    }
}

/// The display text of a `profile_idc`.
pub open spec fn profile_text(p: u8) -> Seq<char> {
    match profile_label(p) {
        Some(n) => labelled(dec_chars(p as nat), n),
        None => "未知(P"@ + dec_chars(p as nat) + ")"@,
    }
}

pub fn profile_name(profile_idc: u8) -> (r: String)
    ensures
        r@ == profile_text(profile_idc),
{
    let name: &str = match profile_idc {
        44 => "CAVLC 4:4:4",
        66 => "Baseline",
        77 => "Main",
        83 => "Scalable Baseline",
        86 => "Scalable High",
        88 => "Extended",
        100 => "High",
        110 => "High 10",
        118 => "Multiview High",
        122 => "High 4:2:2",
        128 => "Stereo High",
        134 => "MFC Depth High",
        135 => "MFC High",
        138 => "Multiview Depth High",
        139 => "Multiview Deep 3D High",
        244 => "High 4:4:4 Predictive",
        _ => {
            let mut s = String::from_str("未知(P");
            push_dec(&mut s, profile_idc as u64);
            s.append(")");
            assert(s@ =~= profile_text(profile_idc));
            return s;
        },
    };
    let r = labelled_string(profile_idc as u64, name);
    r
}

/// "v (name)".
pub fn labelled_string(v: u64, name: &str) -> (r: String)
    ensures
        r@ == labelled(dec_chars(v as nat), name@),
{
    let mut s = dec(v);
    s.append(" (");
    s.append(name);
    s.append(")");
    assert(s@ =~= labelled(dec_chars(v as nat), name@));
    s
}

/// The display text of a `level_idc`: its value and the level number.
pub open spec fn level_text(v: u8) -> Seq<char> {
    if v == 9 {
        labelled(dec_chars(9), "1b"@)
    } else if v == 11 {
        labelled(dec_chars(11), "1.1 / 1b"@)
    } else {
        labelled(dec_chars(v as nat), dec_chars(v as nat / 10) + "."@ + dec_chars(v as nat % 10))
    }
}

pub fn level_name(level_idc: u8) -> (r: String)
    ensures
        r@ == level_text(level_idc),
{
    match level_idc {
        9 => labelled_string(9, "1b"),
        11 => labelled_string(11, "1.1 / 1b"),
        v => {
            let mut n = dec((v / 10) as u64);
            n.append(".");
            push_dec(&mut n, (v % 10) as u64);
            let r = labelled_string(v as u64, n.as_str());
            assert(r@ =~= level_text(level_idc));
            r
        },
    }
}

/// The name of a `chroma_format_idc`.
pub open spec fn chroma_format_label(v: u32) -> Seq<char> {
    if v == 0 {
        "单色"@
    } else if v == 1 {
        "4:2:0"@
    } else if v == 2 {
        "4:2:2"@
    } else if v == 3 {
        "4:4:4"@
    } else {
        "保留"@
    }
}

pub fn chroma_format_name(v: u32) -> (r: String)
    ensures
        r@ == labelled(dec_chars(v as nat), chroma_format_label(v)),
{
    let name = match v {
        0 => "单色",
        1 => "4:2:0",
        2 => "4:2:2",
        3 => "4:4:4",
        _ => "保留",
    };
    labelled_string(v as u64, name)
}

/// The name of a `pic_order_cnt_type`.
pub open spec fn poc_type_label(v: u32) -> Seq<char> {
    if v == 0 {
        "LSB 编码（最常见）"@
    } else if v == 1 {
        "Delta 编码（两类偏移）"@
    } else if v == 2 {
        "推断型（无需额外字段）"@
    } else {
        "保留"@
    }
}

pub fn poc_type_name(v: u32) -> (r: String)
    ensures
        r@ == labelled(dec_chars(v as nat), poc_type_label(v)),
{
    let name = match v {
        0 => "LSB 编码（最常见）",
        1 => "Delta 编码（两类偏移）",
        2 => "推断型（无需额外字段）",
        _ => "保留",
    };
    labelled_string(v as u64, name)
}

/// The name of an `aspect_ratio_idc`.
pub open spec fn aspect_ratio_label(idc: u32) -> Seq<char> {
    if idc == 0 {
        "未指定"@
    } else if idc == 1 {
        "1:1"@
    } else if idc == 2 {
        "12:11"@
    } else if idc == 3 {
        "10:11"@
    } else if idc == 4 {
        "16:11"@
    } else if idc == 5 {
        "40:33"@
    } else if idc == 6 {
        "24:11"@
    } else if idc == 7 {
        "20:11"@
    } else if idc == 8 {
        "32:11"@
    } else if idc == 9 {
        "80:33"@
    } else if idc == 10 {
        "18:11"@
    } else if idc == 11 {
        "15:11"@
    } else if idc == 12 {
        "64:33"@
    } else if idc == 13 {
        "160:99"@
    } else if idc == 14 {
        "4:3"@
    } else if idc == 15 {
        "3:2"@
    } else if idc == 16 {
        "2:1"@
    } else if idc == 255 {
        "扩展(显式宽高)"@
    } else {
        "保留"@
    }
}

pub fn aspect_ratio_name(idc: u32) -> (r: String)
    ensures
        r@ == labelled(dec_chars(idc as nat), aspect_ratio_label(idc)),
{
    let name = match idc {
        0 => "未指定",
        1 => "1:1",
        2 => "12:11",
        3 => "10:11",
        4 => "16:11",
        5 => "40:33",
        6 => "24:11",
        7 => "20:11",
        8 => "32:11",
        9 => "80:33",
        10 => "18:11",
        11 => "15:11",
        12 => "64:33",
        13 => "160:99",
        14 => "4:3",
        15 => "3:2",
        16 => "2:1",
        255 => "扩展(显式宽高)",
        _ => "保留",
    };
    labelled_string(idc as u64, name)
}

/// The name of a `video_format`.
pub open spec fn video_format_label(v: u32) -> Seq<char> {
    if v == 0 {
        "Component"@
    } else if v == 1 {
        "PAL"@
    } else if v == 2 {
        "NTSC"@
    } else if v == 3 {
        "SECAM"@
    } else if v == 4 {
        "MAC"@
    } else if v == 5 {
        "Unspecified"@
    } else {
        "Reserved"@
    }
}

pub fn video_format_name(v: u32) -> (r: String)
    ensures
        r@ == labelled(dec_chars(v as nat), video_format_label(v)),
{
    let name = match v {
        0 => "Component",
        1 => "PAL",
        2 => "NTSC",
        3 => "SECAM",
        4 => "MAC",
        5 => "Unspecified",
        6 => "Reserved",
        _ => "Reserved",
    };
    labelled_string(v as u64, name)
}

/// "1" or "0" for a flag.
pub open spec fn flag_text(v: bool) -> Seq<char> {
    if v {
        "1"@
    } else {
        "0"@
    }
}

pub fn bool_str(v: bool) -> (r: String)
    ensures
        r@ == flag_text(v),
{
    if v {
        String::from_str("1")
    } else {
        String::from_str("0")
    }
}

} // verus!
