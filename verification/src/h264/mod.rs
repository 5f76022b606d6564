//! H.264 analysis: stream scan, summary statistics, NAL unit details and
//! SPS comparison.

pub mod bitreader;
pub mod common;
pub mod nal;
pub mod pps;
pub mod sei;
pub mod slice;
pub mod sps;

use vstd::prelude::*;
use std::collections::HashMap;
use crate::model::{DiffRow, NaluDetail, NaluSummary, ParseResult, SpsCompare, StreamStats};
use crate::h264::bitreader::{readable, reader_error};
use crate::h264::common::{Field, FieldGroup, opt_text, field_is, bits_text, add_field, profile_name, level_name, profile_text, level_text, groups_view, group_view, rows};
use crate::h264::nal::{RawNal, MAX_NALUS, nal_type_label, nal_type_name, unescape, unescape_rbsp};
use crate::h264::sps::{Sps, sps_error, parse_sps, sps_fields, sps_value, sps_titles, titles, sps_groups_are, sps_groups};
use crate::h264::pps::{Pps, parse_pps, pps_result, pps_groups, pps_warnings};
use crate::mp4::lines_text;
use crate::h264::slice::{parse_slice_header, slice_result, slice_titles, opt_copy, slice_shown};
use crate::h264::sei::{parse_sei, sei_items, lists_payload, sei_warnings};
use crate::text::{dec_chars, push_dec, hex2, push_hex2, pair_seq, pair_text, chars_lt, str_lt, num_seq, num_text};

verus! {

broadcast use vstd::std_specs::hash::group_hash_axioms;

/// The EBSP bytes of `n`, when they lie inside `d`.
pub open spec fn nal_ebsp(d: Seq<u8>, n: RawNal) -> Option<Seq<u8>> {
    if n.data_offset + n.data_len <= d.len() {
        Some(d.subrange(n.data_offset as int, n.data_offset + n.data_len))
    } else {
        None
    }
}

/// The RBSP of `n` (header byte included), when its bytes lie inside `d`.
pub open spec fn nal_rbsp(d: Seq<u8>, n: RawNal) -> Option<Seq<u8>> {
    match nal_ebsp(d, n) {
        Some(e) => Some(unescape(e)),
        None => None,
    }
}

/// The RBSP of a NAL unit (header byte included), emulation-prevention
/// bytes removed; none when its bytes do not lie inside `data`.
fn nalu_rbsp(data: &[u8], n: &RawNal) -> (r: Option<Vec<u8>>)
    ensures
        match nal_rbsp(data@, *n) {
            Some(s) => r is Some && r->0@ == s,
            None => r is None,
        },
{
    let len = data.len();
    let end = match n.data_offset.checked_add(n.data_len) {
        Some(e) => e,
        None => {
            assert(data@.len() == len);
            return None;
        },
    };
    if end > data.len() {
        return None;
    }
    let ebsp = &data[n.data_offset..end];
    Some(unescape_rbsp(ebsp))
}

pub proof fn lemma_rbsp_len(d: Seq<u8>, n: RawNal)
    ensures
        nal_rbsp(d, n) matches Some(r) ==> r.len() <= d.len(),
{
    if let Some(e) = nal_ebsp(d, n) {
        crate::h264::nal::lemma_unescape_len(e);
    }
}

/// Bytes in upper-case hexadecimal, separated by single spaces.
pub open spec fn hex_join(s: Seq<u8>) -> Seq<char>
    decreases s.len(),
{
    if s.len() == 0 {
        seq![]
    } else if s.len() == 1 {
        hex2(s[0])
    } else {
        hex_join(s.drop_last()) + " "@ + hex2(s.last())
    }
}

/// The first `cap` bytes in hexadecimal, separated by spaces.
pub(crate) fn hex_str(bytes: &[u8], cap: usize) -> (r: String)
    ensures
        r@ == hex_join(bytes@.take(if cap < bytes@.len() { cap as int } else { bytes@.len() as int })),
{
    let n = if cap < bytes.len() {
        cap
    } else {
        bytes.len()
    };
    let mut s = String::new();
    let mut i: usize = 0;
    while i < n
        invariant
            i <= n,
            n <= bytes@.len(),
            s@ == hex_join(bytes@.take(i as int)),
        decreases n - i,
    {
        if i > 0 {
            s.append(" ");
        }
        push_hex2(&mut s, bytes[i]);
        assert(bytes@.take(i + 1).drop_last() =~= bytes@.take(i as int));
        i += 1;
    }
    s
}

/// The preview window of `n` lies inside `d`.
pub open spec fn preview_fits(d: Seq<u8>, n: RawNal) -> bool {
    n.data_offset + (if n.data_len < 8 { n.data_len as int } else { 8 }) <= d.len()
}

/// The preview of `n`: its first (at most 8) bytes in hexadecimal.
pub open spec fn preview_of(d: Seq<u8>, n: RawNal) -> Seq<char> {
    hex_join(
        d.subrange(
            n.data_offset as int,
            n.data_offset + (if n.data_len < 8 { n.data_len as int } else { 8 }),
        ),
    )
}

/// `s` lists NAL unit `n`, number `i` of stream `d`.
pub open spec fn summary_is(s: NaluSummary, i: int, d: Seq<u8>, n: RawNal) -> bool {
    &&& s.index == i
    &&& s.offset == n.start_offset
    &&& s.size == n.data_len
    &&& s.start_code_len == n.start_code_len
    &&& s.nal_type == n.nal_type
    &&& s.type_label@ == nal_type_label(n.nal_type)
    &&& s.ref_idc == n.ref_idc
    &&& s.is_idr == (n.nal_type == 5)
    &&& s.preview@ == preview_of(d, n)
}

/// How many of `ns` have a type named `name`.
pub open spec fn name_count(ns: Seq<RawNal>, name: Seq<char>) -> nat
    decreases ns.len(),
{
    if ns.len() == 0 {
        0
    } else {
        name_count(ns.drop_last(), name) + if nal_type_label(ns.last().nal_type) == name {
            1nat
        } else {
            0nat
        }
    }
}

/// How many of `ns` have type `t`.
pub open spec fn type_count(ns: Seq<RawNal>, t: u8) -> nat
    decreases ns.len(),
{
    if ns.len() == 0 {
        0
    } else {
        type_count(ns.drop_last(), t) + if ns.last().nal_type == t {
            1nat
        } else {
            0nat
        }
    }
}

pub proof fn lemma_name_count_bound(ns: Seq<RawNal>, name: Seq<char>)
    ensures
        name_count(ns, name) <= ns.len(),
        name_count(ns, name) > 0 ==> exists|i: int|
            0 <= i < ns.len() && nal_type_label(#[trigger] ns[i].nal_type) == name,
    decreases ns.len(),
{
    if ns.len() > 0 {
        lemma_name_count_bound(ns.drop_last(), name);
        if name_count(ns.drop_last(), name) > 0 {
            let i = choose|i: int|
                0 <= i < ns.drop_last().len() && nal_type_label(
                    #[trigger] ns.drop_last()[i].nal_type,
                ) == name;
            assert(ns[i] == ns.drop_last()[i]);
        }
    }
}

pub proof fn lemma_type_count_bound(ns: Seq<RawNal>, t: u8)
    ensures
        type_count(ns, t) <= ns.len(),
    decreases ns.len(),
{
    if ns.len() > 0 {
        lemma_type_count_bound(ns.drop_last(), t);
    }
}

/// Entry `a` of a type tally comes before entry `b`: more frequent first,
/// then by name.
pub open spec fn count_before(a: (String, usize), b: (String, usize)) -> bool {
    a.1 > b.1 || (a.1 == b.1 && chars_lt(a.0@, b.0@))
}

/// The sum of the counts of a tally.
pub open spec fn count_sum(c: Seq<(String, usize)>) -> nat
    decreases c.len(),
{
    if c.len() == 0 {
        0
    } else {
        count_sum(c.drop_last()) + c.last().1 as nat
    }
}

proof fn lemma_count_sum_push(c: Seq<(String, usize)>, e: (String, usize))
    ensures
        count_sum(c.push(e)) == count_sum(c) + e.1,
{
    assert(c.push(e).drop_last() =~= c);
}

proof fn lemma_count_sum_update(c: Seq<(String, usize)>, k: int, e: (String, usize))
    requires
        0 <= k < c.len(),
    ensures
        count_sum(c.update(k, e)) == count_sum(c) - c[k].1 + e.1,
    decreases c.len(),
{
    if k < c.len() - 1 {
        lemma_count_sum_update(c.drop_last(), k, e);
        assert(c.update(k, e).drop_last() =~= c.drop_last().update(k, e));
    } else {
        assert(c.update(k, e).drop_last() =~= c.drop_last());
    }
}

proof fn lemma_count_sum_insert(c: Seq<(String, usize)>, p: int, e: (String, usize))
    requires
        0 <= p <= c.len(),
    ensures
        count_sum(c.insert(p, e)) == count_sum(c) + e.1,
    decreases c.len(),
{
    if p == c.len() {
        assert(c.insert(p, e) =~= c.push(e));
        lemma_count_sum_push(c, e);
    } else {
        lemma_count_sum_insert(c.drop_last(), p, e);
        assert(c.insert(p, e).drop_last() =~= c.drop_last().insert(p, e));
        assert(c.insert(p, e).last() == c.last());
    }
}

/// Some entry of the tally `c` is named `x`.
pub open spec fn has_name(c: Seq<(String, usize)>, x: Seq<char>) -> bool {
    exists|m: int| 0 <= m < c.len() && (#[trigger] c[m]).0@ == x
}

/// `c` counts the type names of `ns`, in any order, each name once.
pub open spec fn tally_is(c: Seq<(String, usize)>, ns: Seq<RawNal>) -> bool {
    &&& forall|k: int| 0 <= k < c.len() ==> #[trigger] c[k].1 == name_count(ns, c[k].0@) && c[k].1 > 0
    &&& forall|i: int| 0 <= i < ns.len() ==> has_name(c, nal_type_label(#[trigger] ns[i].nal_type))
    &&& forall|j: int, k: int| 0 <= j < c.len() && 0 <= k < c.len() && j != k ==> c[j].0@ != c[k].0@
}

/// `c` counts the type names of `ns`, each name once, most frequent first
/// and names of equal count in lexicographic order.
pub open spec fn counts_of(c: Seq<(String, usize)>, ns: Seq<RawNal>) -> bool {
    &&& tally_is(c, ns)
    &&& forall|j: int, k: int| 0 <= j < k < c.len() ==> count_before(c[j], c[k])
}

proof fn lemma_name_count_push(ns: Seq<RawNal>, n: RawNal, x: Seq<char>)
    ensures
        name_count(ns.push(n), x) == name_count(ns, x) + if nal_type_label(n.nal_type) == x {
            1nat
        } else {
            0nat
        },
{
    assert(ns.push(n).drop_last() =~= ns);
}

/// Counting one more NAL unit whose name is already in the tally.
proof fn lemma_tally_bump(
    old_c: Seq<(String, usize)>,
    c: Seq<(String, usize)>,
    k: int,
    ns: Seq<RawNal>,
    n: RawNal,
)
    requires
        tally_is(old_c, ns),
        0 <= k < old_c.len(),
        old_c[k].0@ == nal_type_label(n.nal_type),
        c == old_c.update(k, (old_c[k].0, (old_c[k].1 + 1) as usize)),
        old_c[k].1 + 1 <= usize::MAX,
    ensures
        tally_is(c, ns.push(n)),
{
    let ns2 = ns.push(n);
    assert forall|i: int| 0 <= i < ns2.len() implies has_name(
        c,
        nal_type_label(#[trigger] ns2[i].nal_type),
    ) by {
        if i < ns.len() {
            assert(ns2[i] == ns[i]);
            assert(has_name(old_c, nal_type_label(ns[i].nal_type)));
            let m = choose|m: int|
                0 <= m < old_c.len() && (#[trigger] old_c[m]).0@ == nal_type_label(ns[i].nal_type);
            assert(c[m].0@ == old_c[m].0@);
        } else {
            assert(c[k].0@ == nal_type_label(n.nal_type));
        }
    }
    assert forall|m: int| 0 <= m < c.len() implies #[trigger] c[m].1 == name_count(ns2, c[m].0@)
        && c[m].1 > 0 by {
        lemma_name_count_push(ns, n, c[m].0@);
    }
}

/// Counting one more NAL unit whose name is not yet in the tally.
proof fn lemma_tally_new(
    old_c: Seq<(String, usize)>,
    c: Seq<(String, usize)>,
    name: String,
    ns: Seq<RawNal>,
    n: RawNal,
)
    requires
        tally_is(old_c, ns),
        name@ == nal_type_label(n.nal_type),
        forall|j: int| 0 <= j < old_c.len() ==> old_c[j].0@ != name@,
        c == old_c.push((name, 1usize)),
    ensures
        tally_is(c, ns.push(n)),
{
    let ns2 = ns.push(n);
    lemma_name_count_bound(ns, name@);
    if name_count(ns, name@) > 0 {
        let i = choose|i: int| 0 <= i < ns.len() && nal_type_label(#[trigger] ns[i].nal_type) == name@;
        assert(has_name(old_c, nal_type_label(ns[i].nal_type)));
    }
    assert forall|i: int| 0 <= i < ns2.len() implies has_name(
        c,
        nal_type_label(#[trigger] ns2[i].nal_type),
    ) by {
        if i < ns.len() {
            assert(ns2[i] == ns[i]);
            assert(has_name(old_c, nal_type_label(ns[i].nal_type)));
            let m = choose|m: int|
                0 <= m < old_c.len() && (#[trigger] old_c[m]).0@ == nal_type_label(ns[i].nal_type);
            assert(c[m] == old_c[m]);
        } else {
            assert(c[old_c.len() as int].0@ == name@);
        }
    }
    assert forall|m: int| 0 <= m < c.len() implies #[trigger] c[m].1 == name_count(ns2, c[m].0@)
        && c[m].1 > 0 by {
        lemma_name_count_push(ns, n, c[m].0@);
        if m < old_c.len() {
            assert(c[m] == old_c[m]);
        }
    }
}

/// Adds NAL unit `n` to the tally of `ns`.
fn tally_add(c: &mut Vec<(String, usize)>, n: &RawNal, Ghost(ns): Ghost<Seq<RawNal>>)
    requires
        tally_is(old(c)@, ns),
        ns.len() < usize::MAX,
    ensures
        tally_is(final(c)@, ns.push(*n)),
        count_sum(final(c)@) == count_sum(old(c)@) + 1,
{
    let name = nal_type_name(n.nal_type);
    let mut k: usize = 0;
    while k < c.len()
        invariant
            k <= c@.len(),
            tally_is(c@, ns),
            c@ == old(c)@,
            ns.len() < usize::MAX,
            name@ == nal_type_label(n.nal_type),
            forall|j: int| 0 <= j < k ==> c@[j].0@ != name@,
        decreases c@.len() - k,
    {
        if c[k].0 == name {
            let s = c[k].0.clone();
            let v = c[k].1;
            proof {
                lemma_name_count_bound(ns, name@);
            }
            let ghost old_c = c@;
            c.set(k, (s, v + 1));
            proof {
                lemma_tally_bump(old_c, c@, k as int, ns, *n);
                lemma_count_sum_update(old_c, k as int, (s, (v + 1) as usize));
            }
            return;
        }
        k += 1;
    }
    let ghost old_c = c@;
    let ghost nm = name;
    c.push((name, 1));
    proof {
        lemma_tally_new(old_c, c@, nm, ns, *n);
        lemma_count_sum_push(old_c, (nm, 1usize));
    }
}

fn before_exec(a: &(String, usize), b: &(String, usize)) -> (r: bool)
    ensures
        r == count_before(*a, *b),
{
    a.1 > b.1 || (a.1 == b.1 && str_lt(a.0.as_str(), b.0.as_str()))
}

pub proof fn lemma_before_total(a: (String, usize), b: (String, usize))
    requires
        a.0@ != b.0@,
    ensures
        count_before(a, b) || count_before(b, a),
{
    crate::text::lemma_chars_lt_total(a.0@, b.0@);
}

pub proof fn lemma_before_transitive(a: (String, usize), b: (String, usize), c: (String, usize))
    requires
        count_before(a, b),
        count_before(b, c),
    ensures
        count_before(a, c),
{
    if a.1 == b.1 && b.1 == c.1 {
        crate::text::lemma_chars_lt_transitive(a.0@, b.0@, c.0@);
    }
}

/// The tally `r` is sorted, most frequent first, then by name.
pub open spec fn tally_sorted(r: Seq<(String, usize)>) -> bool {
    forall|j: int, k: int| 0 <= j < k < r.len() ==> count_before(r[j], r[k])
}

/// Inserts `e` into the sorted tally `r` at its place; returns the place.
fn insert_sorted(r: &mut Vec<(String, usize)>, e: (String, usize)) -> (p: usize)
    requires
        tally_sorted(old(r)@),
        forall|k: int| 0 <= k < old(r)@.len() ==> (#[trigger] old(r)@[k]).0@ != e.0@,
    ensures
        p <= old(r)@.len(),
        final(r)@ == old(r)@.insert(p as int, e),
        tally_sorted(final(r)@),
{
    let mut p: usize = 0;
    while p < r.len() && before_exec(&r[p], &e)
        invariant
            p <= r@.len(),
            forall|j: int| 0 <= j < p ==> count_before(r@[j], e),
        decreases r@.len() - p,
    {
        p += 1;
    }
    proof {
        if p < r@.len() {
            lemma_before_total(r@[p as int], e);
            assert forall|k: int| p <= k < r@.len() implies count_before(e, r@[k]) by {
                if k > p {
                    lemma_before_transitive(e, r@[p as int], r@[k]);
                }
            }
        }
    }
    let ghost old_r = r@;
    r.insert(p, e);
    assert forall|j: int, k: int| 0 <= j < k < r@.len() implies count_before(r@[j], r@[k]) by {
        if k < p {
            assert(r@[j] == old_r[j] && r@[k] == old_r[k]);
        } else if k == p {
            assert(r@[j] == old_r[j]);
        } else if j > p {
            assert(r@[j] == old_r[j - 1] && r@[k] == old_r[k - 1]);
        } else if j == p {
            assert(r@[k] == old_r[k - 1]);
        } else {
            assert(r@[j] == old_r[j] && r@[k] == old_r[k - 1]);
        }
    }
    p
}

/// Sorts a tally: most frequent first, then by name.
fn sort_counts(c: &Vec<(String, usize)>) -> (r: Vec<(String, usize)>)
    requires
        forall|j: int, k: int|
            0 <= j < c@.len() && 0 <= k < c@.len() && j != k ==> c@[j].0@ != c@[k].0@,
    ensures
        r@.len() == c@.len(),
        forall|k: int| 0 <= k < r@.len() ==> c@.contains(#[trigger] r@[k]),
        forall|j: int| 0 <= j < c@.len() ==> r@.contains(#[trigger] c@[j]),
        tally_sorted(r@),
        count_sum(r@) == count_sum(c@),
{
    let mut r: Vec<(String, usize)> = Vec::new();
    let mut i: usize = 0;
    while i < c.len()
        invariant
            i <= c@.len(),
            r@.len() == i,
            forall|j: int, k: int|
                0 <= j < c@.len() && 0 <= k < c@.len() && j != k ==> c@[j].0@ != c@[k].0@,
            forall|k: int| 0 <= k < r@.len() ==> c@.take(i as int).contains(#[trigger] r@[k]),
            forall|j: int| 0 <= j < i ==> r@.contains(#[trigger] c@[j]),
            tally_sorted(r@),
            count_sum(r@) == count_sum(c@.take(i as int)),
        decreases c@.len() - i,
    {
        let e = (c[i].0.clone(), c[i].1);
        assert(e == c@[i as int]);
        assert forall|k: int| 0 <= k < r@.len() implies (#[trigger] r@[k]).0@ != e.0@ by {
            assert(c@.take(i as int).contains(r@[k]));
            let j = choose|j: int| 0 <= j < i && c@.take(i as int)[j] == r@[k];
            assert(c@.take(i as int)[j] == c@[j]);
        }
        let ghost old_r = r@;
        let p = insert_sorted(&mut r, e);
        proof {
            lemma_insert_members(old_r, r@, p as int, c@, i as int);
            lemma_count_sum_insert(old_r, p as int, e);
            assert(c@.take(i + 1).drop_last() =~= c@.take(i as int));
        }
        i += 1;
    }
    assert(c@.take(i as int) =~= c@);
    r
}

proof fn lemma_insert_members(
    old_r: Seq<(String, usize)>,
    r: Seq<(String, usize)>,
    p: int,
    c: Seq<(String, usize)>,
    i: int,
)
    requires
        0 <= p <= old_r.len(),
        0 <= i < c.len(),
        r == old_r.insert(p, c[i]),
        forall|k: int| 0 <= k < old_r.len() ==> c.take(i).contains(#[trigger] old_r[k]),
        forall|j: int| 0 <= j < i ==> old_r.contains(#[trigger] c[j]),
    ensures
        forall|k: int| 0 <= k < r.len() ==> c.take(i + 1).contains(#[trigger] r[k]),
        forall|j: int| 0 <= j < i + 1 ==> r.contains(#[trigger] c[j]),
{
    assert forall|k: int| 0 <= k < r.len() implies c.take(i + 1).contains(#[trigger] r[k]) by {
        if k == p {
            assert(c.take(i + 1)[i] == r[k]);
        } else {
            let q = if k < p { k } else { k - 1 };
            assert(r[k] == old_r[q]);
            assert(c.take(i).contains(old_r[q]));
            let j = choose|j: int| 0 <= j < i && c.take(i)[j] == old_r[q];
            assert(c.take(i + 1)[j] == c.take(i)[j]);
        }
    }
    assert forall|j: int| 0 <= j < i + 1 implies r.contains(#[trigger] c[j]) by {
        if j < i {
            assert(old_r.contains(c[j]));
            let k = choose|k: int| 0 <= k < old_r.len() && old_r[k] == c[j];
            if k < p {
                assert(r[k] == old_r[k]);
            } else {
                assert(r[k + 1] == old_r[k]);
            }
        } else {
            assert(r[p] == c[j]);
        }
    }
}

proof fn lemma_sorted_tally(c: Seq<(String, usize)>, r: Seq<(String, usize)>, ns: Seq<RawNal>)
    requires
        tally_is(c, ns),
        r.len() == c.len(),
        forall|k: int| 0 <= k < r.len() ==> c.contains(#[trigger] r[k]),
        forall|j: int| 0 <= j < c.len() ==> r.contains(#[trigger] c[j]),
        tally_sorted(r),
    ensures
        counts_of(r, ns),
{
    assert forall|k: int| 0 <= k < r.len() implies #[trigger] r[k].1 == name_count(ns, r[k].0@)
        && r[k].1 > 0 by {
        assert(c.contains(r[k]));
        let j = choose|j: int| 0 <= j < c.len() && c[j] == r[k];
        assert(c[j].1 == name_count(ns, c[j].0@));
    }
    assert forall|i: int| 0 <= i < ns.len() implies has_name(r, nal_type_label(#[trigger] ns[i].nal_type)) by {
        assert(has_name(c, nal_type_label(ns[i].nal_type)));
        let m = choose|m: int| 0 <= m < c.len() && (#[trigger] c[m]).0@ == nal_type_label(ns[i].nal_type);
        assert(r.contains(c[m]));
        let k = choose|k: int| 0 <= k < r.len() && r[k] == c[m];
        assert(r[k].0@ == nal_type_label(ns[i].nal_type));
    }
    assert forall|j: int, k: int| 0 <= j < r.len() && 0 <= k < r.len() && j != k implies r[j].0@
        != r[k].0@ by {
        if r[j].0@ == r[k].0@ {
            crate::text::lemma_chars_lt_irreflexive(r[j].0@);
            if j < k {
                assert(count_before(r[j], r[k]));
            } else {
                assert(count_before(r[k], r[j]));
            }
        }
    }
}

/// The SPS that NAL unit `n` carries, when it is an SPS that parses.
pub open spec fn sps_of(d: Seq<u8>, n: RawNal) -> Option<Sps> {
    match sps_body_of(d, n) {
        Some(b) => Some(sps_value(b)),
        None => None,
    }
}

/// The first SPS of `ns` that parses.
pub open spec fn first_sps(d: Seq<u8>, ns: Seq<RawNal>) -> Option<Sps>
    decreases ns.len(),
{
    if ns.len() == 0 {
        None
    } else {
        match first_sps(d, ns.drop_last()) {
            Some(s) => Some(s),
            None => sps_of(d, ns.last()),
        }
    }
}

/// The statistics of stream `d`, whose NAL units are `ns`.
pub open spec fn stats_are(st: StreamStats, d: Seq<u8>, format: Seq<char>, ns: Seq<RawNal>) -> bool {
    &&& st.total_size == d.len()
    &&& st.nalu_count == ns.len()
    &&& counts_of(st.counts@, ns)
    &&& st.idr_count == type_count(ns, 5)
    &&& match first_sps(d, ns) {
        Some(s) => {
            &&& opt_text(st.profile) == Some(profile_text(s.profile_idc))
            &&& opt_text(st.level) == Some(level_text(s.level_idc))
            &&& opt_text(st.resolution) == Some(pair_seq(s.width as nat, "x"@, s.height as nat))
        },
        None => st.profile is None && st.level is None && st.resolution is None,
    }
    &&& st.source_format@ == format
    &&& st.truncated == (ns.len() >= MAX_NALUS)
}

/// The SPS of `n` when it is one that parses, for the stream statistics.
fn sps_of_nal(data: &[u8], n: &RawNal) -> (r: Option<Sps>)
    requires
        readable(data@),
    ensures
        r == sps_of(data@, *n),
{
    if n.nal_type != 7 {
        return None;
    }
    proof {
        lemma_rbsp_len(data@, *n);
    }
    match nalu_rbsp(data, n) {
        Some(rbsp) => {
            if rbsp.len() > 1 {
                let rs = rbsp.as_slice();
                let body = &rs[1..rs.len()];
                assert(body@ =~= rbsp@.drop_first());
                match parse_sps(body) {
                    Ok(p) => Some(p.sps),
                    Err(_) => None,
                }
            } else {
                None
            }
        },
        None => None,
    }
}

/// The NAL unit list and statistics of an Annex B stream, whose NAL units
/// `nals` were scanned beforehand.
pub fn parse_stream_bytes(data: &[u8], source_format: &str, nals: &[RawNal]) -> (r: ParseResult)
    requires
        readable(data@),
        forall|i: int| 0 <= i < nals@.len() ==> preview_fits(data@, #[trigger] nals@[i]),
    ensures
        r.nalus@.len() == nals@.len(),
        forall|i: int| 0 <= i < nals@.len() ==> summary_is(#[trigger] r.nalus@[i], i, data@, nals@[i]),
        stats_are(r.stats, data@, source_format@, nals@),
        count_sum(r.stats.counts@) == nals@.len(),
{
    let ghost d = data@;
    let ghost ns = nals@;
    let mut counts: Vec<(String, usize)> = Vec::new();
    let mut idr_count: usize = 0;
    let mut first: Option<Sps> = None;
    let mut nalus: Vec<NaluSummary> = Vec::new();
    let mut i: usize = 0;
    while i < nals.len()
        invariant
            d == data@,
            ns == nals@,
            i <= ns.len(),
            readable(d),
            forall|j: int| 0 <= j < ns.len() ==> preview_fits(d, #[trigger] ns[j]),
            tally_is(counts@, ns.take(i as int)),
            count_sum(counts@) == i,
            idr_count == type_count(ns.take(i as int), 5),
            first == first_sps(d, ns.take(i as int)),
            nalus@.len() == i,
            forall|j: int| 0 <= j < i ==> summary_is(#[trigger] nalus@[j], j, d, ns[j]),
        decreases ns.len() - i,
    {
        let n = &nals[i];
        let ghost pre = ns.take(i as int);
        proof {
            assert(ns.take(i + 1).drop_last() =~= pre);
            assert(pre.push(*n) =~= ns.take(i + 1));
            lemma_type_count_bound(pre, 5);
        }
        tally_add(&mut counts, n, Ghost(pre));
        if n.nal_type == 5 {
            idr_count += 1;
        }
        if first.is_none() {
            first = sps_of_nal(data, n);
        }
        let len8 = if n.data_len < 8 {
            n.data_len
        } else {
            8
        };
        assert(preview_fits(d, ns[i as int]));
        let window = &data[n.data_offset..n.data_offset + len8];
        let preview = hex_str(window, 8);
        assert(window@.take(window@.len() as int) =~= window@);
        let type_label = nal_type_name(n.nal_type);
        let ghost old_nalus = nalus@;
        nalus.push(
            NaluSummary {
                index: i,
                offset: n.start_offset,
                size: n.data_len,
                start_code_len: n.start_code_len,
                nal_type: n.nal_type,
                type_label,
                ref_idc: n.ref_idc,
                is_idr: n.nal_type == 5,
                preview,
            },
        );
        assert forall|j: int| 0 <= j < i + 1 implies summary_is(#[trigger] nalus@[j], j, d, ns[j]) by {
            if j < i {
                assert(nalus@[j] == old_nalus[j]);
            }
        }
        i += 1;
    }
    assert(ns.take(ns.len() as int) =~= ns);
    let sorted = sort_counts(&counts);
    proof {
        lemma_sorted_tally(counts@, sorted@, ns);
    }
    let (profile, level, resolution) = match first {
        Some(s) => (
            Some(profile_name(s.profile_idc)),
            Some(level_name(s.level_idc)),
            Some(pair_text(s.width as u64, "x", s.height as u64)),
        ),
        None => (None, None, None),
    };
    ParseResult {
        nalus,
        stats: StreamStats {
            total_size: data.len(),
            nalu_count: nals.len(),
            counts: sorted,
            idr_count,
            profile,
            level,
            resolution,
            source_format: String::from_str(source_format),
            truncated: nals.len() >= MAX_NALUS,
        },
    }
}

/// The text of `nal_ref_idc`.
pub open spec fn ref_idc_text(v: u8) -> Seq<char> {
    if v == 0 {
        "0（非参考图像）"@
    } else {
        num_seq(""@, v as nat, "（参考图像）"@)
    }
}

/// `g` is the table of the NAL unit header of `n`.
pub open spec fn header_is(g: FieldGroup, n: RawNal) -> bool {
    &&& g.title@ == "NALU 头"@
    &&& g.note is None
    &&& g.fields@.len() == 3
    &&& field_is(g.fields@[0], "forbidden_zero_bit"@, "0"@, Some(bits_text(0, 1)), "必须为 0"@)
    &&& field_is(
        g.fields@[1],
        "nal_ref_idc"@,
        ref_idc_text(n.ref_idc),
        Some(bits_text(1, 2)),
        "参考优先级"@,
    )
    &&& field_is(
        g.fields@[2],
        "nal_unit_type"@,
        nal_type_label(n.nal_type),
        Some(bits_text(3, 5)),
        "NALU 类型"@,
    )
}

/// The table of the NAL unit header.
fn header_group(n: &RawNal) -> (g: FieldGroup)
    ensures
        header_is(g, *n),
{
    let mut g = FieldGroup::new("NALU 头");
    add_field(&mut g, "forbidden_zero_bit", String::from_str("0"), 0, 1, 0, "必须为 0");
    let ref_text = if n.ref_idc == 0 {
        String::from_str("0（非参考图像）")
    } else {
        num_text("", n.ref_idc as u64, "（参考图像）")
    };
    add_field(&mut g, "nal_ref_idc", ref_text, 1, 3, 0, "参考优先级");
    let ghost g1 = g;
    add_field(&mut g, "nal_unit_type", nal_type_name(n.nal_type), 3, 8, 0, "NALU 类型");
    assert(g.fields@[0] == g1.fields@[0]);
    assert(g.fields@[1] == g1.fields@[1]);
    g
}

/// A group with a title and a note and no fields.
pub open spec fn note_group_is(g: FieldGroup, title: Seq<char>, note: Seq<char>) -> bool {
    &&& g.title@ == title
    &&& opt_text(g.note) == Some(note)
    &&& g.fields@.len() == 0
}

fn note_group(title: &str, note: String) -> (g: FieldGroup)
    ensures
        note_group_is(g, title@, note@),
{
    let mut g = FieldGroup::new(title);
    g.note = Some(note);
    g
}

/// The name of an access unit delimiter's `primary_pic_type`.
pub open spec fn aud_type_label(t: u8) -> Seq<char> {
    if t == 0 {
        "P 帧"@
    } else if t == 1 {
        "B 帧"@
    } else if t == 2 {
        "I 帧"@
    } else if t == 3 {
        "SP 帧"@
    } else if t == 4 {
        "SI 帧"@
    } else {
        "保留"@
    }
}

/// `g` is the table of an access unit delimiter whose first byte is `b`:
/// `primary_pic_type` is its top three bits.
pub open spec fn aud_is(g: FieldGroup, b: u8) -> bool {
    &&& g.title@ == "AUD 内容"@
    &&& g.note is None
    &&& g.fields@.len() == 1
    &&& field_is(
        g.fields@[0],
        "primary_pic_type"@,
        num_seq(""@, (b / 32) as nat, " ("@) + aud_type_label(b / 32) + ")"@,
        Some(bits_text(8, 3)),
        ""@,
    )
}

fn aud_group(body: &[u8]) -> (g: FieldGroup)
    requires
        body@.len() >= 1,
    ensures
        aud_is(g, body@[0]),
{
    let mut g = FieldGroup::new("AUD 内容");
    let t = body[0] / 32;
    let name = match t {
        0 => "P 帧",
        1 => "B 帧",
        2 => "I 帧",
        3 => "SP 帧",
        4 => "SI 帧",
        _ => "保留",
    };
    let mut value = num_text("", t as u64, " (");
    value.append(name);
    value.append(")");
    add_field(&mut g, "primary_pic_type", value, 0, 3, 8, "");
    g
}

/// The PPS that NAL unit `n` carries, when it is a PPS that parses.
pub open spec fn pps_of(d: Seq<u8>, n: RawNal) -> Option<Pps> {
    match pps_body_of(d, n) {
        Some(b) => pps_result(b, None),
        None => None,
    }
}

/// The SPS of each id, the last of `ns` that parses winning.
pub open spec fn sps_context(d: Seq<u8>, ns: Seq<RawNal>) -> Map<u32, Sps>
    decreases ns.len(),
{
    if ns.len() == 0 {
        Map::empty()
    } else {
        let m = sps_context(d, ns.drop_last());
        match sps_of(d, ns.last()) {
            Some(s) => m.insert(s.seq_parameter_set_id, s),
            None => m,
        }
    }
}

/// The PPS of each id, the last of `ns` that parses winning.
pub open spec fn pps_context(d: Seq<u8>, ns: Seq<RawNal>) -> Map<u32, Pps>
    decreases ns.len(),
{
    if ns.len() == 0 {
        Map::empty()
    } else {
        let m = pps_context(d, ns.drop_last());
        match pps_of(d, ns.last()) {
            Some(p) => m.insert(p.pic_parameter_set_id, p),
            None => m,
        }
    }
}

/// The PPS of `n` when it is one that parses.
fn pps_of_nal(data: &[u8], n: &RawNal) -> (r: Option<Pps>)
    requires
        readable(data@),
    ensures
        r == pps_of(data@, *n),
{
    if n.nal_type != 8 {
        return None;
    }
    proof {
        lemma_rbsp_len(data@, *n);
    }
    match nalu_rbsp(data, n) {
        Some(rbsp) => {
            if rbsp.len() > 1 {
                let rs = rbsp.as_slice();
                let body = &rs[1..rs.len()];
                assert(body@ =~= rbsp@.drop_first());
                match parse_pps(body, None) {
                    Ok(p) => Some(p.pps),
                    Err(_) => None,
                }
            } else {
                None
            }
        },
        None => None,
    }
}

/// The latest SPS and PPS of each id among the first `upto` NAL units.
fn build_context(data: &[u8], nals: &[RawNal], upto: usize) -> (r: (
    HashMap<u32, Sps>,
    HashMap<u32, Pps>,
))
    requires
        readable(data@),
    ensures
        r.0@ == sps_context(data@, nals@.take(if upto < nals@.len() { upto as int } else { nals@.len() as int })),
        r.1@ == pps_context(data@, nals@.take(if upto < nals@.len() { upto as int } else { nals@.len() as int })),
{
    let ghost d = data@;
    let ghost ns = nals@;
    let limit = if upto < nals.len() {
        upto
    } else {
        nals.len()
    };
    let mut sps_map: HashMap<u32, Sps> = HashMap::new();
    let mut pps_map: HashMap<u32, Pps> = HashMap::new();
    let mut i: usize = 0;
    while i < limit
        invariant
            d == data@,
            ns == nals@,
            limit <= ns.len(),
            i <= limit,
            readable(d),
            sps_map@ == sps_context(d, ns.take(i as int)),
            pps_map@ == pps_context(d, ns.take(i as int)),
        decreases limit - i,
    {
        let n = &nals[i];
        assert(ns.take(i + 1).drop_last() =~= ns.take(i as int));
        match sps_of_nal(data, n) {
            Some(s) => {
                sps_map.insert(s.seq_parameter_set_id, s);
            },
            None => {},
        }
        match pps_of_nal(data, n) {
            Some(p) => {
                pps_map.insert(p.pic_parameter_set_id, p);
            },
            None => {},
        }
        i += 1;
    }
    (sps_map, pps_map)
}

/// The PPS id that a slice header names, as read without context.
pub open spec fn slice_pps_id(body: Seq<u8>, ref_idc: u8, idr: bool) -> u32 {
    match slice_result(body, ref_idc, idr, None, None) {
        Some(v) => v.pic_parameter_set_id,
        None => 0,
    }
}

/// The PPS with which slice NAL unit number `index` is parsed: the latest
/// one before it with the id that its header names.
pub open spec fn slice_pps(d: Seq<u8>, ns: Seq<RawNal>, index: int, body: Seq<u8>) -> Option<Pps> {
    let n = ns[index];
    pps_context(d, ns.take(index)).index_opt(slice_pps_id(body, n.ref_idc, n.nal_type == 5))
}

/// The SPS with which slice NAL unit number `index` is parsed: the latest
/// one before it with the id that its PPS names.
pub open spec fn slice_sps(d: Seq<u8>, ns: Seq<RawNal>, index: int, body: Seq<u8>) -> Option<Sps> {
    match slice_pps(d, ns, index, body) {
        Some(p) => sps_context(d, ns.take(index)).index_opt(p.seq_parameter_set_id),
        None => None,
    }
}

/// The tables and warnings of slice NAL unit number `index`.
pub open spec fn slice_detail_is(
    groups: Seq<FieldGroup>,
    warnings: Seq<String>,
    d: Seq<u8>,
    ns: Seq<RawNal>,
    index: int,
    body: Seq<u8>,
) -> bool {
    let n = ns[index];
    &&& groups.len() >= 1
    &&& header_is(groups[0], n)
    &&& titles(groups.drop_first()) == slice_titles()
    &&& slice_result(
        body,
        n.ref_idc,
        n.nal_type == 5,
        slice_sps(d, ns, index, body),
        slice_pps(d, ns, index, body),
    ) is None ==> warnings.len() > 0
    &&& slice_shown(
        groups.drop_first(),
        warnings,
        body,
        n.ref_idc,
        n.nal_type == 5,
        slice_sps(d, ns, index, body),
        slice_pps(d, ns, index, body),
    )
}

fn slice_detail(data: &[u8], nals: &[RawNal], index: usize, body: &[u8]) -> (r: (
    Vec<FieldGroup>,
    Vec<String>,
))
    requires
        readable(data@),
        readable(body@),
        index < nals@.len(),
    ensures
        slice_detail_is(r.0@, r.1@, data@, nals@, index as int, body@),
{
    let n = &nals[index];
    let idr = n.nal_type == 5;
    let first = parse_slice_header(body, n.ref_idc, idr, None, None);
    let (sps_map, pps_map) = build_context(data, nals, index);
    let pid = first.info.pic_parameter_set_id;
    assert(pid == slice_pps_id(body@, n.ref_idc, idr));
    let pps = pps_map.get(&pid);
    let sps = match pps {
        Some(p) => sps_map.get(&p.seq_parameter_set_id),
        None => None,
    };
    assert(opt_copy(pps) == slice_pps(data@, nals@, index as int, body@));
    assert(opt_copy(sps) == slice_sps(data@, nals@, index as int, body@));
    let parsed = parse_slice_header(body, n.ref_idc, idr, sps, pps);
    let mut groups: Vec<FieldGroup> = Vec::new();
    groups.push(header_group(n));
    let ghost head = groups@;
    let mut rest = parsed.groups;
    let ghost tail = rest@;
    groups.append(&mut rest);
    assert(groups@.drop_first() =~= tail);
    (groups, parsed.warnings)
}

/// The table titles of a parsed PPS.
pub open spec fn pps_titles(p: Pps) -> Seq<Seq<char>> {
    if p.num_slice_groups_minus1 != 0 {
        seq!["PPS · 基础信息"@, "PPS · 熵编码与预测"@]
    } else {
        seq!["PPS · 基础信息"@, "PPS · 熵编码与预测"@, "PPS · 量化"@, "PPS · 其他控制"@]
    }
}

/// `g` lists the SEI payloads of `body`.
pub open spec fn sei_listing_is(g: FieldGroup, body: Seq<u8>) -> bool {
    let items = sei_items(body, 0, 0).0;
    &&& g.title@ == "SEI · 载荷列表"@
    &&& g.fields@.len() == items.len()
    &&& forall|i: int|
        0 <= i < g.fields@.len() ==> lists_payload(#[trigger] g.fields@[i], i as nat, body, items[i])
    &&& (g.note is Some) == (items.len() == 0)
    &&& g.note matches Some(n) ==> n@ == "未解析出任何 SEI 载荷"@
}

/// The header table alone, with one warning that starts with `prefix`.
pub open spec fn failed_is(groups: Seq<FieldGroup>, warnings: Seq<String>, n: RawNal, prefix: Seq<char>) -> bool {
    &&& groups.len() == 1
    &&& header_is(groups[0], n)
    &&& warnings.len() == 1
    &&& prefix.len() <= warnings[0]@.len()
    &&& warnings[0]@.take(prefix.len() as int) == prefix
}

/// The header table and one note group.
pub open spec fn noted_is(groups: Seq<FieldGroup>, warnings: Seq<String>, n: RawNal, title: Seq<char>, note: Seq<char>) -> bool {
    &&& groups.len() == 2
    &&& header_is(groups[0], n)
    &&& note_group_is(groups[1], title, note)
    &&& warnings.len() == 0
}

/// The tables and warnings of NAL unit number `index`, whose RBSP after
/// the header byte is `body` (at least one byte).
pub open spec fn body_content_is(
    groups: Seq<FieldGroup>,
    warnings: Seq<String>,
    d: Seq<u8>,
    ns: Seq<RawNal>,
    index: int,
    body: Seq<u8>,
) -> bool {
    let n = ns[index];
    let t = n.nal_type;
    if t == 7 {
        if sps_fields(body).1 is Some {
            titles(groups) == sps_titles(sps_value(body)) && sps_groups_are(groups, body) && warnings.len() == 0
        } else {
            failed_is(groups, warnings, n, "SPS 解析失败："@) && sps_error(
                body,
                warnings[0]@.skip("SPS 解析失败："@.len() as int),
            )
        }
    } else if t == 8 {
        match pps_result(body, None) {
            Some(p) => titles(groups) == pps_titles(p) && groups_view(groups) == pps_groups(body, None)
                && lines_text(warnings) == pps_warnings(body, None),
            None => failed_is(groups, warnings, n, "PPS 解析失败："@) && reader_error(
                body,
                warnings[0]@.skip("PPS 解析失败："@.len() as int),
            ),
        }
    } else if t == 1 || t == 5 {
        slice_detail_is(groups, warnings, d, ns, index, body)
    } else if t == 6 {
        &&& groups.len() == 2
        &&& header_is(groups[0], n)
        &&& sei_listing_is(groups[1], body)
        &&& lines_text(warnings) == sei_warnings(body, 0, 0)
    } else if t == 9 {
        &&& groups.len() == 2
        &&& header_is(groups[0], n)
        &&& aud_is(groups[1], body[0])
        &&& warnings.len() == 0
    } else if t == 12 {
        noted_is(groups, warnings, n, "填充数据"@, num_seq(""@, (n.data_len - 1) as nat, " 字节填充（FF 后接 0x00 序列）"@))
    } else if t == 14 || t == 15 || t == 19 || t == 20 {
        noted_is(groups, warnings, n, "扩展类型"@, "MVC/SVC 扩展类型，v1 仅识别类型，不解析内容"@)
    } else {
        noted_is(groups, warnings, n, "内容"@, "该类型暂无详细解析"@)
    }
}

/// The payload shown in hexadecimal: the RBSP after the header byte.
pub open spec fn rbsp_payload(rb: Seq<u8>) -> Seq<u8> {
    if rb.len() > 1 {
        rb.drop_first()
    } else {
        seq![]
    }
}

/// `det` is the detail of NAL unit number `index`, whose RBSP is `rb`.
pub open spec fn detail_is(det: NaluDetail, d: Seq<u8>, ns: Seq<RawNal>, index: int, rb: Seq<u8>) -> bool {
    let n = ns[index];
    let pl = rbsp_payload(rb);
    &&& det.index == index
    &&& det.type_label@ == nal_type_label(n.nal_type)
    &&& det.rbsp_hex@ == hex_join(pl.take(if pl.len() < 4096 { pl.len() as int } else { 4096 }))
    &&& if rb.len() < 2 {
        &&& det.groups@.len() == 1
        &&& header_is(det.groups@[0], n)
        &&& det.warnings@.len() == 1
        &&& det.warnings@[0]@ == "NALU 数据不足 2 字节"@
    } else {
        body_content_is(det.groups@, det.warnings@, d, ns, index, rb.drop_first())
    }
}

/// The text of an out-of-range NAL unit index.
pub open spec fn index_error(index: nat, len: nat) -> Seq<char> {
    num_seq("NALU 序号 "@, index, " 越界（共 "@) + num_seq(""@, len, " 个）"@)
}

fn header_and(n: &RawNal, g: FieldGroup) -> (r: Vec<FieldGroup>)
    ensures
        r@.len() == 2,
        header_is(r@[0], *n),
        r@[1] == g,
{
    let mut r: Vec<FieldGroup> = Vec::new();
    r.push(header_group(n));
    r.push(g);
    r
}

fn header_failed(n: &RawNal, prefix: &str, e: String) -> (r: (Vec<FieldGroup>, Vec<String>))
    ensures
        failed_is(r.0@, r.1@, *n, prefix@),
        r.1@[0]@ == prefix@ + e@,
{
    let mut groups: Vec<FieldGroup> = Vec::new();
    groups.push(header_group(n));
    let mut w = String::from_str(prefix);
    w.append(e.as_str());
    assert(w@.take(prefix@.len() as int) =~= prefix@);
    let mut warnings: Vec<String> = Vec::new();
    warnings.push(w);
    (groups, warnings)
}

/// The tables and warnings of NAL unit number `index`, by its type.
fn body_content(data: &[u8], nals: &[RawNal], index: usize, body: &[u8]) -> (r: (
    Vec<FieldGroup>,
    Vec<String>,
))
    requires
        readable(data@),
        readable(body@),
        index < nals@.len(),
        body@.len() >= 1,
        nals@[index as int].data_len >= 1,
    ensures
        body_content_is(r.0@, r.1@, data@, nals@, index as int, body@),
{
    let n = &nals[index];
    let t = n.nal_type;
    if t == 7 {
        match parse_sps(body) {
            Ok(p) => (p.groups, Vec::new()),
            Err(e) => {
                let r = header_failed(n, "SPS 解析失败：", e);
                assert(r.1@[0]@.skip("SPS 解析失败："@.len() as int) =~= e@);
                r
            },
        }
    } else if t == 8 {
        match parse_pps(body, None) {
            Ok(p) => (p.groups, p.warnings),
            Err(e) => {
                let r = header_failed(n, "PPS 解析失败：", e);
                assert(r.1@[0]@.skip("PPS 解析失败："@.len() as int) =~= e@);
                r
            },
        }
    } else if t == 1 || t == 5 {
        slice_detail(data, nals, index, body)
    } else if t == 6 {
        let (mut g, w) = parse_sei(body);
        let sei = g.remove(0);
        (header_and(n, sei), w)
    } else if t == 9 {
        (header_and(n, aud_group(body)), Vec::new())
    } else if t == 12 {
        let note = num_text("", (n.data_len - 1) as u64, " 字节填充（FF 后接 0x00 序列）");
        (header_and(n, note_group("填充数据", note)), Vec::new())
    } else if t == 14 || t == 15 || t == 19 || t == 20 {
        let note = String::from_str("MVC/SVC 扩展类型，v1 仅识别类型，不解析内容");
        (header_and(n, note_group("扩展类型", note)), Vec::new())
    } else {
        let note = String::from_str("该类型暂无详细解析");
        (header_and(n, note_group("内容", note)), Vec::new())
    }
}

/// The parsed content of NAL unit number `index`, read with the SPS and
/// PPS that precede it.
pub fn nalu_detail_bytes(data: &[u8], nals: &[RawNal], index: usize) -> (r: Result<NaluDetail, String>)
    requires
        readable(data@),
    ensures
        index >= nals@.len() ==> r is Err && r->Err_0@ == index_error(index as nat, nals@.len()),
        index < nals@.len() ==> match nal_rbsp(data@, nals@[index as int]) {
            None => r is Err && r->Err_0@ == "NALU 偏移越界"@,
            Some(rb) => r is Ok && detail_is(r->Ok_0, data@, nals@, index as int, rb),
        },
{
    if index >= nals.len() {
        let mut e = num_text("NALU 序号 ", index as u64, " 越界（共 ");
        e.append(num_text("", nals.len() as u64, " 个）").as_str());
        return Err(e);
    }
    let n = &nals[index];
    proof {
        lemma_rbsp_len(data@, *n);
        if let Some(e) = nal_ebsp(data@, *n) {
            crate::h264::nal::lemma_unescape_len(e);
        }
    }
    let rbsp = match nalu_rbsp(data, n) {
        Some(r) => r,
        None => {
            return Err(String::from_str("NALU 偏移越界"));
        },
    };
    let type_label = nal_type_name(n.nal_type);
    let rs = rbsp.as_slice();
    let (groups, warnings) = if rs.len() < 2 {
        let mut groups: Vec<FieldGroup> = Vec::new();
        groups.push(header_group(n));
        let mut warnings: Vec<String> = Vec::new();
        warnings.push(String::from_str("NALU 数据不足 2 字节"));
        (groups, warnings)
    } else {
        let body = &rs[1..rs.len()];
        assert(body@ =~= rbsp@.drop_first());
        body_content(data, nals, index, body)
    };
    let payload = if rs.len() > 1 {
        &rs[1..rs.len()]
    } else {
        &rs[0..0]
    };
    assert(payload@ =~= rbsp_payload(rbsp@));
    Ok(NaluDetail { index, type_label, groups, warnings, rbsp_hex: hex_str(payload, 4096) })
}

/// The parsed SPS of NAL unit `n`, with its tables, when it is an SPS that
/// parses.
fn parse_sps_nal(data: &[u8], n: &RawNal) -> (r: Option<(Sps, Vec<FieldGroup>)>)
    requires
        readable(data@),
    ensures
        found_sps_is(r, sps_of(data@, *n)),
        found_sps_shown(r, sps_body_of(data@, *n)),
{
    proof {
        reveal(found_sps_shown);
        reveal(found_pps_shown);
    }
    if n.nal_type != 7 {
        return None;
    }
    proof {
        lemma_rbsp_len(data@, *n);
    }
    match nalu_rbsp(data, n) {
        Some(rbsp) => {
            if rbsp.len() > 1 {
                let rs = rbsp.as_slice();
                let body = &rs[1..rs.len()];
                assert(body@ =~= rbsp@.drop_first());
                match parse_sps(body) {
                    Ok(p) => Some((p.sps, p.groups)),
                    Err(_) => None,
                }
            } else {
                None
            }
        },
        None => None,
    }
}

/// The tables of the PPS of NAL unit `n`, when it is a PPS that parses.
fn parse_pps_nal(data: &[u8], n: &RawNal) -> (r: Option<Vec<FieldGroup>>)
    requires
        readable(data@),
    ensures
        found_pps_is(r, pps_of(data@, *n)),
        found_pps_shown(r, pps_body_of(data@, *n)),
{
    proof {
        reveal(found_sps_shown);
        reveal(found_pps_shown);
    }
    if n.nal_type != 8 {
        return None;
    }
    proof {
        lemma_rbsp_len(data@, *n);
    }
    match nalu_rbsp(data, n) {
        Some(rbsp) => {
            if rbsp.len() > 1 {
                let rs = rbsp.as_slice();
                let body = &rs[1..rs.len()];
                assert(body@ =~= rbsp@.drop_first());
                match parse_pps(body, None) {
                    Ok(p) => Some(p.groups),
                    Err(_) => None,
                }
            } else {
                None
            }
        },
        None => None,
    }
}

/// The first PPS of `ns` that parses.
pub open spec fn first_pps(d: Seq<u8>, ns: Seq<RawNal>) -> Option<Pps>
    decreases ns.len(),
{
    if ns.len() == 0 {
        None
    } else {
        match first_pps(d, ns.drop_last()) {
            Some(p) => Some(p),
            None => pps_of(d, ns.last()),
        }
    }
}

/// The body of `n` when it is an SPS that parses.
pub open spec fn sps_body_of(d: Seq<u8>, n: RawNal) -> Option<Seq<u8>> {
    match nal_rbsp(d, n) {
        Some(r) => if n.nal_type == 7 && r.len() > 1 && sps_fields(r.drop_first()).1 is Some {
            Some(r.drop_first())
        } else {
            None
        },
        None => None,
    }
}

/// The body of the first SPS of `ns` that parses.
pub open spec fn first_sps_body(d: Seq<u8>, ns: Seq<RawNal>) -> Option<Seq<u8>>
    decreases ns.len(),
{
    if ns.len() == 0 {
        None
    } else {
        match first_sps_body(d, ns.drop_last()) {
            Some(b) => Some(b),
            None => sps_body_of(d, ns.last()),
        }
    }
}

/// The body of `n` when it is a PPS that parses.
pub open spec fn pps_body_of(d: Seq<u8>, n: RawNal) -> Option<Seq<u8>> {
    match nal_rbsp(d, n) {
        Some(r) => if n.nal_type == 8 && r.len() > 1 && pps_result(r.drop_first(), None) is Some {
            Some(r.drop_first())
        } else {
            None
        },
        None => None,
    }
}

/// The body of the first PPS of `ns` that parses.
pub open spec fn first_pps_body(d: Seq<u8>, ns: Seq<RawNal>) -> Option<Seq<u8>>
    decreases ns.len(),
{
    if ns.len() == 0 {
        None
    } else {
        match first_pps_body(d, ns.drop_last()) {
            Some(b) => Some(b),
            None => pps_body_of(d, ns.last()),
        }
    }
}

/// The first SPS is that of the first SPS body that parses.
proof fn lemma_first_sps_body(d: Seq<u8>, ns: Seq<RawNal>)
    ensures
        first_sps(d, ns) == match first_sps_body(d, ns) {
            Some(b) => Some(sps_value(b)),
            None => None::<Sps>,
        },
    decreases ns.len(),
{
    if ns.len() > 0 {
        lemma_first_sps_body(d, ns.drop_last());
    }
}

/// The first PPS is that of the first PPS body that parses.
proof fn lemma_first_pps_body(d: Seq<u8>, ns: Seq<RawNal>)
    ensures
        first_pps(d, ns) == match first_pps_body(d, ns) {
            Some(b) => pps_result(b, None),
            None => None::<Pps>,
        },
        first_pps_body(d, ns) matches Some(b) ==> pps_result(b, None) is Some,
    decreases ns.len(),
{
    if ns.len() > 0 {
        lemma_first_pps_body(d, ns.drop_last());
        let n = ns.last();
        if first_pps_body(d, ns.drop_last()) is None {
            assert(first_pps(d, ns) == pps_of(d, n));
        }
    }
}

/// `f` holds the tables of the SPS body `b`, when there is one.
#[verifier::opaque]
pub open spec fn found_sps_shown(f: Option<(Sps, Vec<FieldGroup>)>, b: Option<Seq<u8>>) -> bool {
    match b {
        Some(body) => f is Some && sps_groups_are((f->0).1@, body),
        None => true,
    }
}

/// `f` holds the tables of the PPS body `b`, when there is one.
#[verifier::opaque]
pub open spec fn found_pps_shown(f: Option<Vec<FieldGroup>>, b: Option<Seq<u8>>) -> bool {
    match b {
        Some(body) => f is Some && groups_view(f->0@) == pps_groups(body, None),
        None => true,
    }
}

/// The error of a stream without an SPS that parses.
pub open spec fn no_sps_error() -> Seq<char> {
    "码流中未找到 SPS（不是 H.264 裸流，或参数集缺失）"@
}

/// `f` holds the SPS `o` with its tables, or nothing when `o` is none.
pub open spec fn found_sps_is(f: Option<(Sps, Vec<FieldGroup>)>, o: Option<Sps>) -> bool {
    match o {
        Some(s) => f is Some && (f->0).0 == s && titles((f->0).1@) == sps_titles(s),
        None => f is None,
    }
}

/// `f` holds the tables of PPS `o`, or nothing when `o` is none.
pub open spec fn found_pps_is(f: Option<Vec<FieldGroup>>, o: Option<Pps>) -> bool {
    match o {
        Some(p) => f is Some && titles(f->0@) == pps_titles(p),
        None => f is None,
    }
}

/// The first SPS that parses, with its tables, and the tables of the first
/// PPS that parses (none when there is none).
fn first_parameter_sets(data: &[u8], nals: &[RawNal]) -> (r: Result<
    (Sps, Vec<FieldGroup>, Vec<FieldGroup>),
    String,
>)
    requires
        readable(data@),
    ensures
        match first_sps(data@, nals@) {
            None => r is Err && r->Err_0@ == no_sps_error(),
            Some(s) => r is Ok && (r->Ok_0).0 == s && titles((r->Ok_0).1@) == sps_titles(s) && titles(
                (r->Ok_0).2@,
            ) == match first_pps(data@, nals@) {
                Some(p) => pps_titles(p),
                None => seq![],
            },
        },
        r is Ok ==> first_sps_body(data@, nals@) is Some && sps_groups_are(
            (r->Ok_0).1@,
            first_sps_body(data@, nals@)->0,
        ) && match first_pps_body(data@, nals@) {
            Some(b) => groups_view((r->Ok_0).2@) == pps_groups(b, None),
            None => (r->Ok_0).2@.len() == 0,
        },
{
    let ghost d = data@;
    let ghost ns = nals@;
    let mut sps_found: Option<(Sps, Vec<FieldGroup>)> = None;
    let mut pps_groups: Option<Vec<FieldGroup>> = None;
    let mut i: usize = 0;
    assert(ns.take(ns.len() as int) =~= ns);
    proof {
        assert(ns.take(0) =~= Seq::<RawNal>::empty());
        lemma_none_shown();
    }
    while i < nals.len()
        invariant
            d == data@,
            ns == nals@,
            i <= ns.len(),
            readable(d),
            found_sps_is(sps_found, first_sps(d, ns.take(i as int))),
            found_pps_is(pps_groups, first_pps(d, ns.take(i as int))),
            found_sps_shown(sps_found, first_sps_body(d, ns.take(i as int))),
            found_pps_shown(pps_groups, first_pps_body(d, ns.take(i as int))),
            ns.take(ns.len() as int) == ns,
        ensures
            found_sps_is(sps_found, first_sps(d, ns)),
            found_pps_is(pps_groups, first_pps(d, ns)),
            found_sps_shown(sps_found, first_sps_body(d, ns)),
            found_pps_shown(pps_groups, first_pps_body(d, ns)),
        decreases ns.len() - i,
    {
        let n = &nals[i];
        assert(ns.take(i as int).push(*n) =~= ns.take(i + 1));
        parameter_set_step(data, n, &mut sps_found, &mut pps_groups, Ghost(ns.take(i as int)));
        i += 1;
        if sps_found.is_some() && pps_groups.is_some() {
            proof {
                lemma_first_found(d, ns, i as int);
                lemma_first_sps_body(d, ns.take(i as int));
                lemma_first_pps_body(d, ns.take(i as int));
            }
            break;
        }
    }
    proof {
        if i == ns.len() {
            assert(ns.take(i as int) =~= ns);
        }
        lemma_first_sps_body(d, ns);
        lemma_first_pps_body(d, ns);
        lemma_shown(sps_found, pps_groups, first_sps_body(d, ns), first_pps_body(d, ns));
    }
    match sps_found {
        Some((s, groups)) => {
            let pg = match pps_groups {
                Some(g) => g,
                None => Vec::new(),
            };
            Ok((s, groups, pg))
        },
        None => Err(String::from_str("码流中未找到 SPS（不是 H.264 裸流，或参数集缺失）")),
    }
}

/// What the found tables show, when their bodies are known.
proof fn lemma_shown(
    f: Option<(Sps, Vec<FieldGroup>)>,
    g: Option<Vec<FieldGroup>>,
    b: Option<Seq<u8>>,
    c: Option<Seq<u8>>,
)
    requires
        found_sps_shown(f, b),
        found_pps_shown(g, c),
    ensures
        b matches Some(body) ==> f is Some && sps_groups_are((f->0).1@, body),
        c matches Some(body) ==> g is Some && groups_view(g->0@) == pps_groups(body, None),
{
    reveal(found_sps_shown);
    reveal(found_pps_shown);
}

/// Nothing is shown of no body.
proof fn lemma_none_shown()
    ensures
        found_sps_shown(None, None),
        found_pps_shown(None, None),
{
    reveal(found_sps_shown);
    reveal(found_pps_shown);
}

/// Looks at one more NAL unit for the first SPS and PPS.
fn parameter_set_step(
    data: &[u8],
    n: &RawNal,
    sps_found: &mut Option<(Sps, Vec<FieldGroup>)>,
    pps_groups: &mut Option<Vec<FieldGroup>>,
    Ghost(pre): Ghost<Seq<RawNal>>,
)
    requires
        readable(data@),
        found_sps_is(*old(sps_found), first_sps(data@, pre)),
        found_pps_is(*old(pps_groups), first_pps(data@, pre)),
        found_sps_shown(*old(sps_found), first_sps_body(data@, pre)),
        found_pps_shown(*old(pps_groups), first_pps_body(data@, pre)),
    ensures
        found_sps_is(*final(sps_found), first_sps(data@, pre.push(*n))),
        found_pps_is(*final(pps_groups), first_pps(data@, pre.push(*n))),
        found_sps_shown(*final(sps_found), first_sps_body(data@, pre.push(*n))),
        found_pps_shown(*final(pps_groups), first_pps_body(data@, pre.push(*n))),
{
    assert(pre.push(*n).drop_last() =~= pre);
    proof {
        lemma_first_sps_body(data@, pre);
        lemma_first_pps_body(data@, pre);
    }
    if sps_found.is_none() {
        *sps_found = parse_sps_nal(data, n);
    }
    if pps_groups.is_none() {
        *pps_groups = parse_pps_nal(data, n);
    }
}

/// Once found in a prefix, the first SPS and PPS stay the first ones.
proof fn lemma_first_found(d: Seq<u8>, ns: Seq<RawNal>, i: int)
    requires
        0 <= i <= ns.len(),
    ensures
        first_sps(d, ns.take(i)) is Some ==> first_sps(d, ns) == first_sps(d, ns.take(i)),
        first_pps(d, ns.take(i)) is Some ==> first_pps(d, ns) == first_pps(d, ns.take(i)),
        first_sps_body(d, ns.take(i)) is Some ==> first_sps_body(d, ns) == first_sps_body(d, ns.take(i)),
        first_pps_body(d, ns.take(i)) is Some ==> first_pps_body(d, ns) == first_pps_body(d, ns.take(i)),
    decreases ns.len() - i,
{
    if i < ns.len() {
        lemma_first_found(d, ns, i + 1);
        assert(ns.take(i + 1).drop_last() =~= ns.take(i));
    } else {
        assert(ns.take(i) =~= ns);
    }
}

/// The names of a list of fields.
pub open spec fn names(fs: Seq<Field>) -> Seq<Seq<char>> {
    fs.map_values(|f: Field| f.name@)
}

/// How many of `ks` are `t`.
pub open spec fn count_key(ks: Seq<Seq<char>>, t: Seq<char>) -> nat
    decreases ks.len(),
{
    if ks.len() == 0 {
        0
    } else {
        count_key(ks.drop_last(), t) + if ks.last() == t {
            1nat
        } else {
            0nat
        }
    }
}

/// The index of occurrence `k` (counting from 0) of `t` in `ks`.
pub open spec fn nth_index(ks: Seq<Seq<char>>, t: Seq<char>, k: nat) -> Option<int>
    decreases ks.len(),
{
    if ks.len() == 0 {
        None
    } else {
        match nth_index(ks.drop_last(), t, k) {
            Some(i) => Some(i),
            None => if ks.last() == t && count_key(ks.drop_last(), t) == k {
                Some(ks.len() - 1)
            } else {
                None
            },
        }
    }
}

/// Group number `k` (counting from 0) of those of `gs` titled `t`.
pub open spec fn nth_group(gs: Seq<FieldGroup>, t: Seq<char>, k: nat) -> Option<FieldGroup> {
    match nth_index(titles(gs), t, k) {
        Some(i) => Some(gs[i]),
        None => None,
    }
}

/// Field number `k` (counting from 0) of those of `fs` named `n`.
pub open spec fn nth_field(fs: Seq<Field>, n: Seq<char>, k: nat) -> Option<Field> {
    match nth_index(names(fs), n, k) {
        Some(i) => Some(fs[i]),
        None => None,
    }
}

/// A compared row, as text.
pub struct RowView {
    pub section: Seq<char>,
    pub name: Seq<char>,
    pub value_a: Seq<char>,
    pub value_b: Seq<char>,
    pub same: bool,
    pub desc: Option<Seq<char>>,
}

pub open spec fn row_view(r: DiffRow) -> RowView {
    RowView {
        section: r.section@,
        name: r.name@,
        value_a: r.value_a@,
        value_b: r.value_b@,
        same: r.same,
        desc: opt_text(r.desc),
    }
}

pub open spec fn views(rows: Seq<DiffRow>) -> Seq<RowView> {
    rows.map_values(|r: DiffRow| row_view(r))
}

/// The field of group `bg` of side B that the last field of `fs` is
/// compared with: the one that has its name as often before it as the last
/// field of `fs` has.
pub open spec fn b_match(bg: Option<FieldGroup>, fs: Seq<Field>) -> Option<Field> {
    match bg {
        Some(x) => nth_field(x.fields@, fs.last().name@, count_key(names(fs.drop_last()), fs.last().name@)),
        None => None,
    }
}

/// The row of field `f` of group `g` of side A, compared with `bf`.
pub open spec fn row_a(g: FieldGroup, f: Field, bf: Option<Field>) -> RowView {
    RowView {
        section: g.title@,
        name: f.name@,
        value_a: f.value@,
        value_b: match bf {
            Some(x) => x.value@,
            None => "（B 侧无此字段）"@,
        },
        same: match bf {
            Some(x) => x.value@ == f.value@,
            None => false,
        },
        desc: opt_text(f.desc),
    }
}

/// The row of field `f` of group `g` of side B, missing on side A.
pub open spec fn row_b(g: FieldGroup, f: Field) -> RowView {
    RowView {
        section: g.title@,
        name: f.name@,
        value_a: "（A 侧无此字段）"@,
        value_b: f.value@,
        same: false,
        desc: opt_text(f.desc),
    }
}

/// Group `ag` of side A has the counterpart of the last field of `fs`: as
/// many fields of its name as the last field of `fs` has before it, and
/// one more.
pub open spec fn a_has(ag: Option<FieldGroup>, fs: Seq<Field>) -> bool {
    match ag {
        Some(x) => count_key(names(x.fields@), fs.last().name@) > count_key(names(fs.drop_last()), fs.last().name@),
        None => false,
    }
}

/// The rows of fields `fs` of group `g` of side A, compared with group
/// `bg` of side B.
pub open spec fn fields_rows_a(g: FieldGroup, fs: Seq<Field>, bg: Option<FieldGroup>) -> Seq<RowView>
    decreases fs.len(),
{
    if fs.len() == 0 {
        seq![]
    } else {
        fields_rows_a(g, fs.drop_last(), bg).push(row_a(g, fs.last(), b_match(bg, fs)))
    }
}

/// The group of `other` that the last group of `gs` is compared with: the
/// one that has its title as often before it as the last group of `gs`
/// has.
pub open spec fn group_match(gs: Seq<FieldGroup>, other: Seq<FieldGroup>) -> Option<FieldGroup> {
    nth_group(other, gs.last().title@, count_key(titles(gs.drop_last()), gs.last().title@))
}

/// The rows of every field of side A, group by group: each field is
/// compared with the field of side B in the same place among those of its
/// name, in the group in the same place among those of its title.
pub open spec fn rows_a(a: Seq<FieldGroup>, b: Seq<FieldGroup>) -> Seq<RowView>
    decreases a.len(),
{
    if a.len() == 0 {
        seq![]
    } else {
        rows_a(a.drop_last(), b) + fields_rows_a(a.last(), a.last().fields@, group_match(a, b))
    }
}

/// The rows of fields `fs` of group `g` of side B that group `ag` of side A
/// has no counterpart of.
pub open spec fn fields_rows_b(g: FieldGroup, fs: Seq<Field>, ag: Option<FieldGroup>) -> Seq<RowView>
    decreases fs.len(),
{
    if fs.len() == 0 {
        seq![]
    } else if a_has(ag, fs) {
        fields_rows_b(g, fs.drop_last(), ag)
    } else {
        fields_rows_b(g, fs.drop_last(), ag).push(row_b(g, fs.last()))
    }
}

/// The rows of the fields of side B that side A has no counterpart of.
pub open spec fn rows_b(b: Seq<FieldGroup>, a: Seq<FieldGroup>) -> Seq<RowView>
    decreases b.len(),
{
    if b.len() == 0 {
        seq![]
    } else {
        rows_b(b.drop_last(), a) + fields_rows_b(b.last(), b.last().fields@, group_match(b, a))
    }
}

/// The number of rows that differ.
pub open spec fn diff_total(rows: Seq<RowView>) -> nat
    decreases rows.len(),
{
    if rows.len() == 0 {
        0
    } else {
        diff_total(rows.drop_last()) + if rows.last().same {
            0nat
        } else {
            1nat
        }
    }
}

/// The summary line of an SPS.
pub open spec fn sps_note(s: Sps, tag: Seq<char>) -> Seq<char> {
    tag + ": "@ + profile_text(s.profile_idc) + " / "@ + level_text(s.level_idc) + " / "@ + pair_seq(
        s.width as nat,
        "x"@,
        s.height as nat,
    ) + " / POC类型"@ + dec_chars(s.pic_order_cnt_type as nat) + " / 参考帧"@ + dec_chars(
        s.max_num_ref_frames as nat,
    )
}

/// `c` compares tables `a` with tables `b`, whose SPS are `sa` and `sb`.
pub open spec fn compare_is(c: SpsCompare, a: Seq<FieldGroup>, b: Seq<FieldGroup>, sa: Sps, sb: Sps) -> bool {
    &&& views(c.rows@) == rows_a(a, b) + rows_b(b, a)
    &&& c.diff_count == diff_total(views(c.rows@))
    &&& c.note_a@ == sps_note(sa, "A"@)
    &&& c.note_b@ == sps_note(sb, "B"@)
}

/// How many of the first `upto` groups of `gs` are titled `t`.
fn count_titles(gs: &Vec<FieldGroup>, upto: usize, t: &String) -> (r: usize)
    requires
        upto <= gs@.len(),
    ensures
        r == count_key(titles(gs@.take(upto as int)), t@),
{
    let mut c: usize = 0;
    let mut i: usize = 0;
    assert(titles(gs@.take(0)) =~= Seq::<Seq<char>>::empty());
    while i < upto
        invariant
            upto <= gs@.len(),
            i <= upto,
            c <= i,
            c == count_key(titles(gs@.take(i as int)), t@),
        decreases upto - i,
    {
        assert(titles(gs@.take(i + 1)).drop_last() =~= titles(gs@.take(i as int)));
        assert(titles(gs@.take(i + 1)).last() == gs@[i as int].title@);
        if gs[i].title == *t {
            c += 1;
        }
        i += 1;
    }
    c
}

/// The index of group number `k` of those of `gs` titled `t`.
fn nth_group_at(gs: &Vec<FieldGroup>, t: &String, k: usize) -> (r: Option<usize>)
    ensures
        match nth_index(titles(gs@), t@, k as nat) {
            Some(i) => r matches Some(x) && x as int == i && i < gs@.len(),
            None => r is None,
        },
{
    proof {
        lemma_nth_lt_count(titles(gs@), t@, k as nat);
    }
    let mut c: usize = 0;
    let mut i: usize = 0;
    assert(titles(gs@.take(0)) =~= Seq::<Seq<char>>::empty());
    while i < gs.len()
        invariant
            i <= gs@.len(),
            c <= i,
            c == count_key(titles(gs@.take(i as int)), t@),
            nth_index(titles(gs@.take(i as int)), t@, k as nat) is None,
        decreases gs@.len() - i,
    {
        let ghost ks = titles(gs@.take(i + 1));
        assert(ks.drop_last() =~= titles(gs@.take(i as int)));
        assert(ks.last() == gs@[i as int].title@);
        if gs[i].title == *t {
            if c == k {
                proof {
                    assert(nth_index(ks, t@, k as nat) == Some(i as int));
                    assert(ks =~= titles(gs@).take(i + 1));
                    lemma_nth_prefix(titles(gs@), i + 1, t@, k as nat);
                }
                return Some(i);
            }
            c += 1;
        }
        i += 1;
    }
    assert(titles(gs@.take(i as int)) =~= titles(gs@));
    None
}

/// How many of the first `upto` fields of `fs` are named `n`.
fn count_names(fs: &Vec<Field>, upto: usize, n: &String) -> (r: usize)
    requires
        upto <= fs@.len(),
    ensures
        r == count_key(names(fs@.take(upto as int)), n@),
{
    let mut c: usize = 0;
    let mut i: usize = 0;
    assert(names(fs@.take(0)) =~= Seq::<Seq<char>>::empty());
    while i < upto
        invariant
            upto <= fs@.len(),
            i <= upto,
            c <= i,
            c == count_key(names(fs@.take(i as int)), n@),
        decreases upto - i,
    {
        assert(names(fs@.take(i + 1)).drop_last() =~= names(fs@.take(i as int)));
        assert(names(fs@.take(i + 1)).last() == fs@[i as int].name@);
        if fs[i].name == *n {
            c += 1;
        }
        i += 1;
    }
    c
}

/// The index of field number `k` of those of `fs` named `n`.
fn nth_field_at(fs: &Vec<Field>, n: &String, k: usize) -> (r: Option<usize>)
    ensures
        match nth_index(names(fs@), n@, k as nat) {
            Some(i) => r matches Some(x) && x as int == i && i < fs@.len(),
            None => r is None,
        },
{
    proof {
        lemma_nth_lt_count(names(fs@), n@, k as nat);
    }
    let mut c: usize = 0;
    let mut i: usize = 0;
    assert(names(fs@.take(0)) =~= Seq::<Seq<char>>::empty());
    while i < fs.len()
        invariant
            i <= fs@.len(),
            c <= i,
            c == count_key(names(fs@.take(i as int)), n@),
            nth_index(names(fs@.take(i as int)), n@, k as nat) is None,
        decreases fs@.len() - i,
    {
        let ghost ks = names(fs@.take(i + 1));
        assert(ks.drop_last() =~= names(fs@.take(i as int)));
        assert(ks.last() == fs@[i as int].name@);
        if fs[i].name == *n {
            if c == k {
                proof {
                    assert(nth_index(ks, n@, k as nat) == Some(i as int));
                    assert(ks =~= names(fs@).take(i + 1));
                    lemma_nth_prefix(names(fs@), i + 1, n@, k as nat);
                }
                return Some(i);
            }
            c += 1;
        }
        i += 1;
    }
    assert(names(fs@.take(i as int)) =~= names(fs@));
    None
}

/// Group `i` of `gs`, when there is one.
pub open spec fn pick(gs: Seq<FieldGroup>, i: Option<usize>) -> Option<FieldGroup> {
    match i {
        Some(k) => Some(gs[k as int]),
        None => None,
    }
}

fn copy_desc(d: &Option<String>) -> (r: Option<String>)
    ensures
        opt_text(r) == opt_text(*d),
{
    match d {
        Some(x) => Some(x.clone()),
        None => None,
    }
}

/// Appends the rows of the fields of group `g` of side A, compared with
/// group `bi` of side B.
fn push_rows_a(rows: &mut Vec<DiffRow>, g: &FieldGroup, b: &Vec<FieldGroup>, bi: Option<usize>)
    requires
        bi matches Some(k) ==> k < b@.len(),
    ensures
        views(final(rows)@) == views(old(rows)@) + fields_rows_a(*g, g.fields@, pick(b@, bi)),
{
    let mut fi: usize = 0;
    assert(g.fields@.take(0) =~= Seq::<Field>::empty());
    assert(views(rows@) =~= views(old(rows)@) + seq![]);
    while fi < g.fields.len()
        invariant
            fi <= g.fields@.len(),
            bi matches Some(k) ==> k < b@.len(),
            views(rows@) == views(old(rows)@) + fields_rows_a(*g, g.fields@.take(fi as int), pick(b@, bi)),
        decreases g.fields@.len() - fi,
    {
        let f = &g.fields[fi];
        let ghost fs = g.fields@.take(fi + 1);
        assert(fs.drop_last() =~= g.fields@.take(fi as int));
        assert(fs.last() == *f);
        let j = count_names(&g.fields, fi, &f.name);
        let (vb, same) = match bi {
            Some(k) => match nth_field_at(&b[k].fields, &f.name, j) {
                Some(x) => (b[k].fields[x].value.clone(), b[k].fields[x].value == f.value),
                None => (String::from_str("（B 侧无此字段）"), false),
            },
            None => (String::from_str("（B 侧无此字段）"), false),
        };
        let row = DiffRow {
            section: g.title.clone(),
            name: f.name.clone(),
            value_a: f.value.clone(),
            value_b: vb,
            same,
            desc: copy_desc(&f.desc),
        };
        assert(row_view(row) == row_a(*g, *f, b_match(pick(b@, bi), fs)));
        let ghost before = rows@;
        rows.push(row);
        assert(views(rows@) =~= views(before).push(row_view(row)));
        fi += 1;
    }
    assert(g.fields@.take(fi as int) =~= g.fields@);
}

/// Appends the rows of the fields of group `g` of side B that group `ai`
/// of side A has no counterpart of.
fn push_rows_b(rows: &mut Vec<DiffRow>, g: &FieldGroup, a: &Vec<FieldGroup>, ai: Option<usize>)
    requires
        ai matches Some(k) ==> k < a@.len(),
    ensures
        views(final(rows)@) == views(old(rows)@) + fields_rows_b(*g, g.fields@, pick(a@, ai)),
{
    let mut fi: usize = 0;
    assert(g.fields@.take(0) =~= Seq::<Field>::empty());
    assert(views(rows@) =~= views(old(rows)@) + seq![]);
    while fi < g.fields.len()
        invariant
            fi <= g.fields@.len(),
            ai matches Some(k) ==> k < a@.len(),
            views(rows@) == views(old(rows)@) + fields_rows_b(*g, g.fields@.take(fi as int), pick(a@, ai)),
        decreases g.fields@.len() - fi,
    {
        let f = &g.fields[fi];
        let ghost fs = g.fields@.take(fi + 1);
        assert(fs.drop_last() =~= g.fields@.take(fi as int));
        assert(fs.last() == *f);
        let j = count_names(&g.fields, fi, &f.name);
        let present = match ai {
            Some(k) => {
                let total = count_names(&a[k].fields, a[k].fields.len(), &f.name);
                assert(a@[k as int].fields@.take(a@[k as int].fields@.len() as int) =~= a@[k as int].fields@);
                total > j
            },
            None => false,
        };
        assert(present == a_has(pick(a@, ai), fs));
        if !present {
            let row = DiffRow {
                section: g.title.clone(),
                name: f.name.clone(),
                value_a: String::from_str("（A 侧无此字段）"),
                value_b: f.value.clone(),
                same: false,
                desc: copy_desc(&f.desc),
            };
            let ghost before = rows@;
            rows.push(row);
            assert(views(rows@) =~= views(before).push(row_view(row)));
        }
        fi += 1;
    }
    assert(g.fields@.take(fi as int) =~= g.fields@);
}

/// The summary line of an SPS, tagged `tag`.
fn sps_note_text(s: &Sps, tag: &str) -> (r: String)
    ensures
        r@ == sps_note(*s, tag@),
{
    let mut r = String::from_str(tag);
    r.append(": ");
    r.append(profile_name(s.profile_idc).as_str());
    r.append(" / ");
    r.append(level_name(s.level_idc).as_str());
    r.append(" / ");
    r.append(pair_text(s.width as u64, "x", s.height as u64).as_str());
    r.append(" / POC类型");
    push_dec(&mut r, s.pic_order_cnt_type as u64);
    r.append(" / 参考帧");
    push_dec(&mut r, s.max_num_ref_frames as u64);
    r
}

/// Compares the tables of side A with those of side B: a row for each
/// field of A, matched with the field of B in the same place among those
/// of its name, in the group in the same place among those of its title;
/// then a row for each field of B that A has no counterpart of.
pub fn compare_tables(a: &Vec<FieldGroup>, b: &Vec<FieldGroup>, sa: &Sps, sb: &Sps) -> (r: SpsCompare)
    ensures
        compare_is(r, a@, b@, *sa, *sb),
{
    let mut rows: Vec<DiffRow> = Vec::new();
    let mut gi: usize = 0;
    assert(views(rows@) =~= Seq::<RowView>::empty());
    while gi < a.len()
        invariant
            gi <= a@.len(),
            views(rows@) == rows_a(a@.take(gi as int), b@),
        decreases a@.len() - gi,
    {
        let k = count_titles(a, gi, &a[gi].title);
        let bi = nth_group_at(b, &a[gi].title, k);
        push_rows_a(&mut rows, &a[gi], b, bi);
        assert(a@.take(gi + 1).drop_last() =~= a@.take(gi as int));
        assert(a@.take(gi + 1).last() == a@[gi as int]);
        assert(titles(a@.take(gi + 1).drop_last()) == titles(a@.take(gi as int)));
        assert(a@.take(gi + 1).last().title@ == a@[gi as int].title@);
        assert(group_match(a@.take(gi + 1), b@) == nth_group(b@, a@[gi as int].title@, k as nat));
        assert(nth_group(b@, a@[gi as int].title@, k as nat) == pick(b@, bi));
        gi += 1;
    }
    assert(a@.take(gi as int) =~= a@);
    let ghost ra = views(rows@);
    let mut gj: usize = 0;
    while gj < b.len()
        invariant
            gj <= b@.len(),
            views(rows@) == ra + rows_b(b@.take(gj as int), a@),
        decreases b@.len() - gj,
    {
        let k = count_titles(b, gj, &b[gj].title);
        let ai = nth_group_at(a, &b[gj].title, k);
        push_rows_b(&mut rows, &b[gj], a, ai);
        assert(b@.take(gj + 1).drop_last() =~= b@.take(gj as int));
        assert(b@.take(gj + 1).last() == b@[gj as int]);
        assert(group_match(b@.take(gj + 1), a@) == pick(a@, ai));
        gj += 1;
    }
    assert(b@.take(gj as int) =~= b@);
    let mut diff_count: usize = 0;
    let mut k: usize = 0;
    while k < rows.len()
        invariant
            k <= rows@.len(),
            diff_count == diff_total(views(rows@).take(k as int)),
            diff_count <= k,
        decreases rows@.len() - k,
    {
        assert(views(rows@).take(k + 1).drop_last() =~= views(rows@).take(k as int));
        if !rows[k].same {
            diff_count += 1;
        }
        k += 1;
    }
    assert(views(rows@).take(k as int) =~= views(rows@));
    SpsCompare { diff_count, rows, note_a: sps_note_text(sa, "A"), note_b: sps_note_text(sb, "B") }
}

/// `g` are the tables of the first SPS and first PPS of stream `d`.
pub open spec fn tables_titled(g: Seq<FieldGroup>, d: Seq<u8>, ns: Seq<RawNal>) -> bool {
    &&& first_sps(d, ns) is Some
    &&& titles(g) == sps_titles(first_sps(d, ns)->0) + match first_pps(d, ns) {
        Some(p) => pps_titles(p),
        None => seq![],
    }
}

/// The number of groups of the SPS body `b`: those before the VUI, and the
/// VUI group when there is one.
pub open spec fn sps_group_count(b: Seq<u8>) -> int {
    sps_groups(b).len() + if sps_fields(b).0.vui_parameters_present_flag {
        1int
    } else {
        0int
    }
}

/// `g` shows the tables of the first SPS of stream `d`, then those of its
/// first PPS when it has one.
#[verifier::opaque]
pub open spec fn tables_shown(g: Seq<FieldGroup>, d: Seq<u8>, ns: Seq<RawNal>) -> bool {
    match first_sps_body(d, ns) {
        Some(b) => {
            let k = sps_group_count(b);
            &&& 0 <= k <= g.len()
            &&& sps_groups_are(g.take(k), b)
            &&& match first_pps_body(d, ns) {
                Some(pb) => groups_view(g.skip(k)) == pps_groups(pb, None),
                None => g.len() == k,
            }
        },
        None => false,
    }
}

proof fn lemma_tables_shown(ga: Seq<FieldGroup>, gp: Seq<FieldGroup>, d: Seq<u8>, ns: Seq<RawNal>)
    requires
        first_sps_body(d, ns) is Some,
        sps_groups_are(ga, first_sps_body(d, ns)->0),
        match first_pps_body(d, ns) {
            Some(b) => groups_view(gp) == pps_groups(b, None),
            None => gp.len() == 0,
        },
    ensures
        tables_shown(ga + gp, d, ns),
{
    reveal(tables_shown);
    assert(groups_view(ga).len() == ga.len());
    assert((ga + gp).take(ga.len() as int) =~= ga);
    assert((ga + gp).skip(ga.len() as int) =~= gp);
}

/// Compares the first SPS and PPS of two streams, field by field.
pub fn compare_sps_bytes(data_a: &[u8], nals_a: &[RawNal], data_b: &[u8], nals_b: &[RawNal]) -> (r:
    Result<SpsCompare, String>)
    requires
        readable(data_a@),
        readable(data_b@),
    ensures
        first_sps(data_a@, nals_a@) is None ==> r is Err && r->Err_0@ == no_sps_error(),
        first_sps(data_a@, nals_a@) is Some && first_sps(data_b@, nals_b@) is None ==> r is Err
            && r->Err_0@ == no_sps_error(),
        first_sps(data_a@, nals_a@) is Some && first_sps(data_b@, nals_b@) is Some ==> r is Ok
            && exists|ga: Seq<FieldGroup>, gb: Seq<FieldGroup>|
            tables_titled(ga, data_a@, nals_a@) && tables_titled(gb, data_b@, nals_b@) && tables_shown(
                ga,
                data_a@,
                nals_a@,
            ) && tables_shown(gb, data_b@, nals_b@) && #[trigger] compare_is(
                r->Ok_0,
                ga,
                gb,
                first_sps(data_a@, nals_a@)->0,
                first_sps(data_b@, nals_b@)->0,
            ),
        data_a@ == data_b@ && nals_a@ == nals_b@ && r is Ok ==> r->Ok_0.diff_count == 0 && forall|k: int|
            0 <= k < r->Ok_0.rows@.len() ==> (#[trigger] r->Ok_0.rows@[k]).same && r->Ok_0.rows@[k].value_a@
                == r->Ok_0.rows@[k].value_b@,
{
    let (sps_a, mut groups_a, mut pps_a) = match first_parameter_sets(data_a, nals_a) {
        Ok(t) => t,
        Err(e) => {
            return Err(e);
        },
    };
    let (sps_b, mut groups_b, mut pps_b) = match first_parameter_sets(data_b, nals_b) {
        Ok(t) => t,
        Err(e) => {
            return Err(e);
        },
    };
    let ghost (ga0, pa0, gb0, pb0) = (groups_a@, pps_a@, groups_b@, pps_b@);
    groups_a.append(&mut pps_a);
    groups_b.append(&mut pps_b);
    assert(titles(groups_a@) =~= titles(ga0) + titles(pa0));
    assert(titles(groups_b@) =~= titles(gb0) + titles(pb0));
    let c = compare_tables(&groups_a, &groups_b, &sps_a, &sps_b);
    assert(tables_titled(groups_a@, data_a@, nals_a@));
    assert(tables_titled(groups_b@, data_b@, nals_b@));
    proof {
        lemma_tables_shown(ga0, pa0, data_a@, nals_a@);
        lemma_tables_shown(gb0, pb0, data_b@, nals_b@);
    }
    assert(compare_is(c, groups_a@, groups_b@, sps_a, sps_b));
    let r: Result<SpsCompare, String> = Ok(c);
    assert(sps_a == first_sps(data_a@, nals_a@)->0 && sps_b == first_sps(data_b@, nals_b@)->0);
    proof {
        if data_a@ == data_b@ && nals_a@ == nals_b@ {
            lemma_compare_same_stream(c, groups_a@, groups_b@, data_a@, nals_a@);
        }
    }
    assert(compare_is(
        r->Ok_0,
        groups_a@,
        groups_b@,
        first_sps(data_a@, nals_a@)->0,
        first_sps(data_b@, nals_b@)->0,
    ));
    r
}

proof fn lemma_diff_total_zero(rows: Seq<RowView>)
    requires
        forall|x: int| 0 <= x < rows.len() ==> (#[trigger] rows[x]).same,
    ensures
        diff_total(rows) == 0,
    decreases rows.len(),
{
    if rows.len() > 0 {
        assert forall|x: int| 0 <= x < rows.drop_last().len() implies (#[trigger] rows.drop_last()[x]).same by {
            assert(rows.drop_last()[x] == rows[x]);
        }
        lemma_diff_total_zero(rows.drop_last());
    }
}

/// An occurrence found is one of those counted, at a key equal to `t`.
proof fn lemma_nth_lt_count(ks: Seq<Seq<char>>, t: Seq<char>, k: nat)
    ensures
        nth_index(ks, t, k) matches Some(i) ==> k < count_key(ks, t) && 0 <= i < ks.len() && ks[i] == t,
    decreases ks.len(),
{
    if ks.len() > 0 {
        lemma_nth_lt_count(ks.drop_last(), t, k);
    }
}

/// An occurrence found among the first `m` keys is the one found among all.
proof fn lemma_nth_prefix(ks: Seq<Seq<char>>, m: int, t: Seq<char>, k: nat)
    requires
        0 <= m <= ks.len(),
        nth_index(ks.take(m), t, k) is Some,
    ensures
        nth_index(ks, t, k) == nth_index(ks.take(m), t, k),
    decreases ks.len(),
{
    if m == ks.len() {
        assert(ks.take(m) =~= ks);
    } else {
        assert(ks.drop_last().take(m) =~= ks.take(m));
        lemma_nth_prefix(ks.drop_last(), m, t, k);
    }
}

/// Key `i` of `ks` is the occurrence of its key that has as many equal
/// keys before it.
proof fn lemma_nth_at(ks: Seq<Seq<char>>, i: int)
    requires
        0 <= i < ks.len(),
    ensures
        nth_index(ks, ks[i], count_key(ks.take(i), ks[i])) == Some(i),
{
    let t = ks[i];
    let c = count_key(ks.take(i), t);
    let p = ks.take(i + 1);
    assert(p.drop_last() =~= ks.take(i));
    assert(p.last() == t);
    lemma_nth_lt_count(ks.take(i), t, c);
    assert(nth_index(p, t, c) == Some(i));
    lemma_nth_prefix(ks, i + 1, t, c);
}

/// The first `m` keys hold no more occurrences of `t` than all of them.
proof fn lemma_count_prefix(ks: Seq<Seq<char>>, m: int, t: Seq<char>)
    requires
        0 <= m <= ks.len(),
    ensures
        count_key(ks.take(m), t) <= count_key(ks, t),
    decreases ks.len(),
{
    if m == ks.len() {
        assert(ks.take(m) =~= ks);
    } else {
        assert(ks.drop_last().take(m) =~= ks.take(m));
        lemma_count_prefix(ks.drop_last(), m, t);
    }
}

/// Comparing tables with themselves shows every field the same, with equal
/// values on both sides, and no difference.
pub proof fn lemma_compare_self(c: SpsCompare, g: Seq<FieldGroup>, s: Sps)
    requires
        compare_is(c, g, g, s, s),
    ensures
        c.diff_count == 0,
        forall|k: int|
            0 <= k < c.rows@.len() ==> (#[trigger] c.rows@[k]).same && c.rows@[k].value_a@ == c.rows@[k].value_b@,
{
    lemma_same_compare(c, g, g, s);
}

/// Comparing tables that agree but for notes shows every field the same,
/// with equal values on both sides, and no difference.
proof fn lemma_same_compare(c: SpsCompare, a: Seq<FieldGroup>, b: Seq<FieldGroup>, s: Sps)
    requires
        same_tables(a, b),
        compare_is(c, a, b, s, s),
    ensures
        c.diff_count == 0,
        forall|k: int|
            0 <= k < c.rows@.len() ==> (#[trigger] c.rows@[k]).same && c.rows@[k].value_a@ == c.rows@[k].value_b@,
{
    lemma_rows_same(a, b, a.len() as int);
    assert(a.take(a.len() as int) =~= a);
    assert(b.take(b.len() as int) =~= b);
    let v = views(c.rows@);
    assert(v =~= rows_a(a, b));
    lemma_diff_total_zero(v);
    assert forall|k: int| 0 <= k < c.rows@.len() implies (#[trigger] c.rows@[k]).same
        && c.rows@[k].value_a@ == c.rows@[k].value_b@ by {
        assert(v[k] == row_view(c.rows@[k]));
    }
}

/// Groups `a` and `b` have the same titles and the same rows, group by
/// group (their notes may differ).
pub open spec fn same_tables(a: Seq<FieldGroup>, b: Seq<FieldGroup>) -> bool {
    &&& a.len() == b.len()
    &&& forall|i: int|
        0 <= i < a.len() ==> #[trigger] a[i].title@ == b[i].title@ && rows(a[i].fields@) == rows(
            b[i].fields@,
        )
}

/// Two listings of the tables of one stream agree but for notes.
proof fn lemma_shown_same(a: Seq<FieldGroup>, b: Seq<FieldGroup>, d: Seq<u8>, ns: Seq<RawNal>)
    requires
        tables_shown(a, d, ns),
        tables_shown(b, d, ns),
    ensures
        same_tables(a, b),
{
    reveal(tables_shown);
    let body = first_sps_body(d, ns)->0;
    let k = sps_group_count(body);
    let main = sps_groups(body);
    let va = groups_view(a.take(k));
    let vb = groups_view(b.take(k));
    assert(va.take(main.len() as int) == main);
    assert(vb.take(main.len() as int) == main);
    match first_pps_body(d, ns) {
        Some(pb) => {
            assert(groups_view(a.skip(k)).len() == groups_view(b.skip(k)).len());
        },
        None => {},
    }
    assert(a.len() == b.len());
    assert forall|i: int| 0 <= i < a.len() implies #[trigger] a[i].title@ == b[i].title@ && rows(a[i].fields@)
        == rows(b[i].fields@) by {
        if i < main.len() {
            assert(va.take(main.len() as int)[i] == va[i]);
            assert(vb.take(main.len() as int)[i] == vb[i]);
            assert(va[i] == group_view(a[i]));
            assert(vb[i] == group_view(b[i]));
        } else if i < k {
            assert(i == k - 1);
            assert(va.last() == group_view(a[i]));
            assert(vb.last() == group_view(b[i]));
        } else {
            let pb = first_pps_body(d, ns)->0;
            assert(groups_view(a.skip(k))[i - k] == group_view(a[i]));
            assert(groups_view(b.skip(k))[i - k] == group_view(b[i]));
        }
    }
}

/// Fields `0..m` of group `i` of `a` all match the same field of `b`, and
/// group `i` of `b` has none among its first `m` that `a` lacks.
proof fn lemma_fields_same(a: Seq<FieldGroup>, b: Seq<FieldGroup>, i: int, m: int)
    requires
        same_tables(a, b),
        0 <= i < a.len(),
        0 <= m <= a[i].fields@.len(),
    ensures
        forall|x: int|
            0 <= x < fields_rows_a(a[i], a[i].fields@.take(m), Some(b[i])).len() ==> (#[trigger] fields_rows_a(
                a[i],
                a[i].fields@.take(m),
                Some(b[i]),
            )[x]).same && fields_rows_a(a[i], a[i].fields@.take(m), Some(b[i]))[x].value_a == fields_rows_a(
                a[i],
                a[i].fields@.take(m),
                Some(b[i]),
            )[x].value_b,
        fields_rows_b(b[i], b[i].fields@.take(m), Some(a[i])) == Seq::<RowView>::empty(),
    decreases m,
{
    let fa = a[i].fields@;
    let fb = b[i].fields@;
    assert(a[i].title@ == b[i].title@);
    assert(rows(fa) == rows(fb));
    assert(rows(fa).len() == fa.len() && rows(fb).len() == fb.len());
    let ks = names(fa);
    assert(names(fb) =~= ks) by {
        assert forall|x: int| 0 <= x < fa.len() implies names(fb)[x] == ks[x] by {
            assert(rows(fa)[x] == rows(fb)[x]);
        }
    }
    if m > 0 {
        lemma_fields_same(a, b, i, m - 1);
        let fs = fa.take(m);
        let gs = fb.take(m);
        assert(fs.drop_last() =~= fa.take(m - 1));
        assert(gs.drop_last() =~= fb.take(m - 1));
        assert(fs.last() == fa[m - 1]);
        assert(gs.last() == fb[m - 1]);
        let n = fa[m - 1].name@;
        assert(names(fa.take(m - 1)) =~= ks.take(m - 1));
        assert(names(fb.take(m - 1)) =~= ks.take(m - 1));
        assert(ks[m - 1] == n);
        lemma_nth_at(ks, m - 1);
        assert(rows(fa)[m - 1] == rows(fb)[m - 1]);
        assert(b_match(Some(b[i]), fs) == Some(fb[m - 1]));
        assert(ks.take(m).drop_last() =~= ks.take(m - 1));
        lemma_count_prefix(ks, m, n);
        assert(a_has(Some(a[i]), gs));
        let prev = fields_rows_a(a[i], fa.take(m - 1), Some(b[i]));
        assert(fields_rows_a(a[i], fs, Some(b[i])) == prev.push(row_a(a[i], fa[m - 1], Some(fb[m - 1]))));
    } else {
        assert(fa.take(0) =~= Seq::<Field>::empty());
        assert(fb.take(0) =~= Seq::<Field>::empty());
    }
}

/// The rows of groups `0..m` of `a` compared with `b` all agree, and `b`
/// has nothing in its groups `0..m` that `a` lacks.
proof fn lemma_rows_same(a: Seq<FieldGroup>, b: Seq<FieldGroup>, m: int)
    requires
        same_tables(a, b),
        0 <= m <= a.len(),
    ensures
        forall|x: int|
            0 <= x < rows_a(a.take(m), b).len() ==> (#[trigger] rows_a(a.take(m), b)[x]).same && rows_a(
                a.take(m),
                b,
            )[x].value_a == rows_a(a.take(m), b)[x].value_b,
        rows_b(b.take(m), a) == Seq::<RowView>::empty(),
    decreases m,
{
    if m > 0 {
        lemma_rows_same(a, b, m - 1);
        let i = m - 1;
        assert(a.take(m).drop_last() =~= a.take(i));
        assert(b.take(m).drop_last() =~= b.take(i));
        assert(a.take(m).last() == a[i]);
        assert(b.take(m).last() == b[i]);
        let ks = titles(a);
        assert(titles(b) =~= ks) by {
            assert forall|x: int| 0 <= x < a.len() implies titles(b)[x] == ks[x] by {
                assert(a[x].title@ == b[x].title@);
            }
        }
        assert(titles(a.take(i)) =~= ks.take(i));
        assert(titles(b.take(i)) =~= ks.take(i));
        assert(ks[i] == a[i].title@ && b[i].title@ == a[i].title@);
        lemma_nth_at(ks, i);
        assert(group_match(a.take(m), b) == Some(b[i]));
        assert(group_match(b.take(m), a) == Some(a[i]));
        lemma_fields_same(a, b, i, a[i].fields@.len() as int);
        assert(rows(a[i].fields@).len() == rows(b[i].fields@).len());
        assert(a[i].fields@.take(a[i].fields@.len() as int) =~= a[i].fields@);
        assert(b[i].fields@.take(b[i].fields@.len() as int) =~= b[i].fields@);
        let x0 = rows_a(a.take(i), b);
        let y0 = fields_rows_a(a[i], a[i].fields@, Some(b[i]));
        assert(rows_a(a.take(m), b) == x0 + y0);
        assert forall|x: int| 0 <= x < (x0 + y0).len() implies (#[trigger] (x0 + y0)[x]).same && (x0
            + y0)[x].value_a == (x0 + y0)[x].value_b by {
            if x < x0.len() {
                assert((x0 + y0)[x] == x0[x]);
            } else {
                assert((x0 + y0)[x] == y0[x - x0.len()]);
            }
        }
        assert(rows_b(b.take(m), a) =~= Seq::<RowView>::empty());
    } else {
        assert(a.take(0) =~= Seq::<FieldGroup>::empty());
        assert(b.take(0) =~= Seq::<FieldGroup>::empty());
    }
}

/// Comparing a stream with itself shows every field the same, with equal
/// values on both sides, and no difference: `compare_sps_bytes` on one
/// stream twice returns such a `c` for such `ga` and `gb`.
pub proof fn lemma_compare_same_stream(
    c: SpsCompare,
    ga: Seq<FieldGroup>,
    gb: Seq<FieldGroup>,
    d: Seq<u8>,
    ns: Seq<RawNal>,
)
    requires
        tables_shown(ga, d, ns),
        tables_shown(gb, d, ns),
        compare_is(c, ga, gb, first_sps(d, ns)->0, first_sps(d, ns)->0),
    ensures
        c.diff_count == 0,
        forall|k: int|
            0 <= k < c.rows@.len() ==> (#[trigger] c.rows@[k]).same && c.rows@[k].value_a@ == c.rows@[k].value_b@,
{
    lemma_shown_same(ga, gb, d, ns);
    lemma_same_compare(c, ga, gb, first_sps(d, ns)->0);
}

} // verus!
