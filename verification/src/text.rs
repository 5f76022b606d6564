//! Text building blocks for the field tables: decimal and hexadecimal
//! numerals, each with the character sequence it produces.

use vstd::prelude::*;

verus! {

/// Appends `c` to `s`, through std's `String::push`.
#[verifier::external_body]
pub(crate) fn push_char(s: &mut String, c: char)
    ensures
        final(s)@ == old(s)@.push(c),
{
    s.push(c);
}

/// The decimal digit `d` (`d < 10`) as a character.
pub open spec fn digit_char(d: nat) -> char {
    (48 + d) as char
}

/// The decimal numeral of `n`, most significant digit first.
pub open spec fn dec_chars(n: nat) -> Seq<char>
    decreases n,
{
    if n < 10 {
        seq![digit_char(n)]
    } else {
        dec_chars(n / 10).push(digit_char(n % 10))
    }
}

/// The decimal numeral of `n`, with a leading `-` when it is negative.
pub open spec fn dec_int(n: int) -> Seq<char> {
    if n < 0 {
        seq!['-'] + dec_chars((-n) as nat)
    } else {
        dec_chars(n as nat)
    }
}

/// The upper-case hexadecimal digit of `v` (`v < 16`).
pub open spec fn hex_char(v: nat) -> char {
    if v < 10 {
        (48 + v) as char
    } else {
        (55 + v) as char
    }
}

/// The two upper-case hexadecimal digits of a byte.
pub open spec fn hex2(b: u8) -> Seq<char> {
    seq![hex_char(b as nat / 16), hex_char(b as nat % 16)]
}

fn digit(d: u64) -> (c: char)
    requires
        d < 10,
    ensures
        c == digit_char(d as nat),
{
    ((48 + d) as u8) as char
}

fn hex_digit(v: u8) -> (c: char)
    requires
        v < 16,
    ensures
        c == hex_char(v as nat),
{
    if v < 10 {
        (48 + v) as char
    } else {
        (55 + v) as char
    }
}

/// Appends the decimal numeral of `n` to `s`.
pub fn push_dec(s: &mut String, n: u64)
    ensures
        final(s)@ == old(s)@ + dec_chars(n as nat),
    decreases n,
{
    if n >= 10 {
        push_dec(s, n / 10);
        push_char(s, digit(n % 10));
    } else {
        push_char(s, digit(n));
    }
    assert(final(s)@ =~= old(s)@ + dec_chars(n as nat));
}

/// Appends the signed decimal numeral of `n` to `s`.
pub fn push_dec_i64(s: &mut String, n: i64)
    ensures
        final(s)@ == old(s)@ + dec_int(n as int),
{
    if n < 0 {
        push_char(s, '-');
        let m: u64 = (0i128 - (n as i128)) as u64;
        push_dec(s, m);
        assert(final(s)@ =~= old(s)@ + dec_int(n as int));
    } else {
        push_dec(s, n as u64);
    }
}

/// The decimal numeral of `n`.
pub fn dec(n: u64) -> (r: String)
    ensures
        r@ == dec_chars(n as nat),
{
    let mut s = String::new();
    push_dec(&mut s, n);
    assert(s@ =~= dec_chars(n as nat));
    s
}

/// The signed decimal numeral of `n`.
pub fn dec_i(n: i64) -> (r: String)
    ensures
        r@ == dec_int(n as int),
{
    let mut s = String::new();
    push_dec_i64(&mut s, n);
    assert(s@ =~= dec_int(n as int));
    s
}

/// Appends the two upper-case hexadecimal digits of `b` to `s`.
pub fn push_hex2(s: &mut String, b: u8)
    ensures
        final(s)@ == old(s)@ + hex2(b),
{
    push_char(s, hex_digit(b / 16));
    push_char(s, hex_digit(b % 16));
    assert(final(s)@ =~= old(s)@ + hex2(b));
}

/// `a`, the decimal numeral of `v`, then `b`.
pub open spec fn num_seq(a: Seq<char>, v: nat, b: Seq<char>) -> Seq<char> {
    a + dec_chars(v) + b
}

/// `a`, the signed decimal numeral of `v`, then `b`.
pub open spec fn int_seq(a: Seq<char>, v: int, b: Seq<char>) -> Seq<char> {
    a + dec_int(v) + b
}

/// The numerals of `x` and `y` joined by `sep`.
pub open spec fn pair_seq(x: nat, sep: Seq<char>, y: nat) -> Seq<char> {
    dec_chars(x) + sep + dec_chars(y)
}

/// The signed numerals of `x` and `y` joined by `sep`.
pub open spec fn int_pair_seq(x: int, sep: Seq<char>, y: int) -> Seq<char> {
    dec_int(x) + sep + dec_int(y)
}

pub proof fn lemma_num_seq(a: Seq<char>, v: nat, b: Seq<char>)
    ensures
        num_seq(a, v, b) == a + dec_chars(v) + b,
{
}

/// `a`, the decimal numeral of `v`, then `b`.
pub fn num_text(a: &str, v: u64, b: &str) -> (r: String)
    ensures
        r@ == num_seq(a@, v as nat, b@),
{
    let mut r = String::from_str(a);
    push_dec(&mut r, v);
    r.append(b);
    assert(r@ =~= a@ + dec_chars(v as nat) + b@);
    r
}

/// `a`, the signed decimal numeral of `v`, then `b`.
pub fn int_text(a: &str, v: i64, b: &str) -> (r: String)
    ensures
        r@ == int_seq(a@, v as int, b@),
{
    let mut r = String::from_str(a);
    push_dec_i64(&mut r, v);
    r.append(b);
    assert(r@ =~= a@ + dec_int(v as int) + b@);
    r
}

/// The numerals of `x` and `y` joined by `sep`.
pub fn pair_text(x: u64, sep: &str, y: u64) -> (r: String)
    ensures
        r@ == pair_seq(x as nat, sep@, y as nat),
{
    let mut r = dec(x);
    r.append(sep);
    push_dec(&mut r, y);
    assert(r@ =~= dec_chars(x as nat) + sep@ + dec_chars(y as nat));
    r
}

/// The signed numerals of `x` and `y` joined by `sep`.
pub fn int_pair_text(x: i64, sep: &str, y: i64) -> (r: String)
    ensures
        r@ == int_pair_seq(x as int, sep@, y as int),
{
    let mut r = dec_i(x);
    r.append(sep);
    push_dec_i64(&mut r, y);
    assert(r@ =~= dec_int(x as int) + sep@ + dec_int(y as int));
    r
}

/// `s` followed by `t`.
pub fn cat(s: &str, t: &str) -> (r: String)
    ensures
        r@ == s@ + t@,
{
    let mut r = String::from_str(s);
    r.append(t);
    r
}


/// Strict lexicographic order of character sequences by code point. This is
/// the order of `str`'s `Ord`: UTF-8 keeps the code-point order bytewise.
pub open spec fn chars_lt(a: Seq<char>, b: Seq<char>) -> bool
    decreases a.len(),
{
    if b.len() == 0 {
        false
    } else if a.len() == 0 {
        true
    } else if a[0] != b[0] {
        (a[0] as int) < (b[0] as int)
    } else {
        chars_lt(a.drop_first(), b.drop_first())
    }
}

pub proof fn lemma_chars_lt_irreflexive(a: Seq<char>)
    ensures
        !chars_lt(a, a),
    decreases a.len(),
{
    if a.len() > 0 {
        lemma_chars_lt_irreflexive(a.drop_first());
    }
}

pub proof fn lemma_chars_lt_transitive(a: Seq<char>, b: Seq<char>, c: Seq<char>)
    requires
        chars_lt(a, b),
        chars_lt(b, c),
    ensures
        chars_lt(a, c),
    decreases a.len(),
{
    if a.len() > 0 && a[0] == b[0] && b[0] == c[0] {
        lemma_chars_lt_transitive(a.drop_first(), b.drop_first(), c.drop_first());
    }
}

pub proof fn lemma_chars_lt_total(a: Seq<char>, b: Seq<char>)
    requires
        a != b,
    ensures
        chars_lt(a, b) || chars_lt(b, a),
    decreases a.len(),
{
    if a.len() > 0 && b.len() > 0 && a[0] == b[0] {
        if a.drop_first() == b.drop_first() {
            assert(a =~= seq![a[0]] + a.drop_first());
            assert(b =~= seq![b[0]] + b.drop_first());
        }
        lemma_chars_lt_total(a.drop_first(), b.drop_first());
    } else if a.len() == 0 && b.len() == 0 {
        assert(a =~= b);
    } else if a.len() > 0 && b.len() > 0 {
        assert((a[0] as int) != (b[0] as int));
    }
}

/// The characters of `s`.
pub fn chars_of(s: &str) -> (r: Vec<char>)
    ensures
        r@ == s@,
{
    let mut v: Vec<char> = Vec::new();
    for c in it: s.chars()
        invariant
            v@ == it.seq().take(it.index()),
            it.seq() == s@,
    {
        v.push(c);
        assert(v@ =~= it.seq().take(it.index() + 1));
    }
    v
}

/// Whether `a` comes strictly before `b` in lexicographic order.
pub fn str_lt(a: &str, b: &str) -> (r: bool)
    ensures
        r == chars_lt(a@, b@),
{
    let x = chars_of(a);
    let y = chars_of(b);
    let mut i: usize = 0;
    assert(x@.skip(0) =~= x@ && y@.skip(0) =~= y@);
    while i < x.len() && i < y.len() && x[i] == y[i]
        invariant
            i <= x@.len(),
            i <= y@.len(),
            x@.take(i as int) == y@.take(i as int),
            chars_lt(x@, y@) == chars_lt(x@.skip(i as int), y@.skip(i as int)),
        decreases x@.len() - i,
    {
        assert(x@.skip(i as int).drop_first() =~= x@.skip(i + 1));
        assert(y@.skip(i as int).drop_first() =~= y@.skip(i + 1));
        assert(x@.take(i + 1) =~= x@.take(i as int).push(x@[i as int]));
        assert(y@.take(i + 1) =~= y@.take(i as int).push(y@[i as int]));
        i += 1;
    }
    if i == y.len() {
        false
    } else if i == x.len() {
        true
    } else {
        x[i] < y[i]
    }
}

/// Whether `a` and `b` hold the same characters.
pub fn str_eq(a: &str, b: &str) -> (r: bool)
    ensures
        r == (a@ == b@),
{
    let x = chars_of(a);
    let y = chars_of(b);
    if x.len() != y.len() {
        assert(a@.len() != b@.len());
        return false;
    }
    let mut i: usize = 0;
    while i < x.len()
        invariant
            i <= x@.len(),
            x@ == a@,
            y@ == b@,
            x@.len() == y@.len(),
            x@.take(i as int) == y@.take(i as int),
        decreases x@.len() - i,
    {
        if x[i] != y[i] {
            assert(a@[i as int] != b@[i as int]);
            return false;
        }
        assert(x@.take(i + 1) =~= x@.take(i as int).push(x@[i as int]));
        assert(y@.take(i + 1) =~= y@.take(i as int).push(y@[i as int]));
        i += 1;
    }
    assert(x@.take(i as int) =~= x@);
    assert(y@.take(i as int) =~= y@);
    true
}

/// The index of the first '\n' of `s` from `i`.
pub open spec fn newline_from(s: Seq<char>, i: int) -> Option<int>
    decreases s.len() - i,
{
    if i < 0 || i >= s.len() {
        None
    } else if s[i] == '\n' {
        Some(i)
    } else {
        newline_from(s, i + 1)
    }
}

/// The first line of `s`, as `str::lines` gives it: up to the first
/// '\n', without a '\r' just before it; none for empty text.
pub open spec fn first_line(s: Seq<char>) -> Option<Seq<char>> {
    if s.len() == 0 {
        None
    } else {
        match newline_from(s, 0) {
            Some(k) => {
                let l = s.take(k);
                if k > 0 && l.last() == '\r' {
                    Some(l.drop_last())
                } else {
                    Some(l)
                }
            },
            None => Some(s),
        }
    }
}

/// The first line of `s`, or `default` when `s` is empty.
pub fn first_line_or(s: &str, default: &str) -> (r: String)
    ensures
        r@ == match first_line(s@) {
            Some(l) => l,
            None => default@,
        },
{
    let c = chars_of(s);
    if c.len() == 0 {
        return String::from_str(default);
    }
    let mut k: usize = 0;
    while k < c.len() && c[k] != '\n'
        invariant
            k <= c@.len(),
            c@ == s@,
            newline_from(s@, 0) == newline_from(s@, k as int),
        decreases c@.len() - k,
    {
        k += 1;
    }
    let end = if k > 0 && k < c.len() && c[k - 1] == '\r' {
        k - 1
    } else {
        k
    };
    let mut out = String::new();
    let mut i: usize = 0;
    while i < end
        invariant
            i <= end <= c@.len(),
            c@ == s@,
            out@ == s@.take(i as int),
        decreases end - i,
    {
        push_char(&mut out, c[i]);
        assert(s@.take(i + 1) =~= s@.take(i as int).push(s@[i as int]));
        i += 1;
    }
    proof {
        if k == c@.len() {
            assert(s@.take(end as int) =~= s@);
        } else if end < k {
            assert(s@.take(k as int).drop_last() =~= s@.take(end as int));
        }
    }
    out
}

/// The index of the last '\n' of `s` before index `j`.
pub open spec fn newline_before(s: Seq<char>, j: int) -> Option<int>
    decreases j,
{
    if j <= 0 || j > s.len() {
        None
    } else if s[j - 1] == '\n' {
        Some(j - 1)
    } else {
        newline_before(s, j - 1)
    }
}

/// The last line of `s`, as `str::lines` gives it: after the last line
/// ending (a final '\n' ends the last line and does not start one), without
/// the '\r' of a final "\r\n"; none for empty text.
pub open spec fn last_line(s: Seq<char>) -> Option<Seq<char>> {
    if s.len() == 0 {
        None
    } else {
        let ended = s.last() == '\n';
        let t = if ended {
            s.drop_last()
        } else {
            s
        };
        let start = match newline_before(t, t.len() as int) {
            Some(i) => i + 1,
            None => 0,
        };
        let l = t.subrange(start, t.len() as int);
        if ended && l.len() > 0 && l.last() == '\r' {
            Some(l.drop_last())
        } else {
            Some(l)
        }
    }
}

/// The last line of `s`, or `default` when `s` is empty.
pub fn last_line_or(s: &str, default: &str) -> (r: String)
    ensures
        r@ == match last_line(s@) {
            Some(l) => l,
            None => default@,
        },
{
    let c = chars_of(s);
    if c.len() == 0 {
        return String::from_str(default);
    }
    let ended = c[c.len() - 1] == '\n';
    let tlen = if ended {
        c.len() - 1
    } else {
        c.len()
    };
    let ghost t = if ended {
        s@.drop_last()
    } else {
        s@
    };
    assert(t =~= s@.take(tlen as int));
    let mut k: usize = tlen;
    while k > 0 && c[k - 1] != '\n'
        invariant
            k <= tlen <= c@.len(),
            c@ == s@,
            t =~= s@.take(tlen as int),
            newline_before(t, tlen as int) == newline_before(t, k as int),
        decreases k,
    {
        k -= 1;
    }
    let end = if ended && tlen > k && c[tlen - 1] == '\r' {
        tlen - 1
    } else {
        tlen
    };
    let r = chars_range(&c, k, end);
    proof {
        let l = t.subrange(k as int, tlen as int);
        if end < tlen {
            assert(l.drop_last() =~= s@.subrange(k as int, end as int));
        } else {
            assert(l =~= s@.subrange(k as int, end as int));
        }
    }
    r
}

/// The first `n` characters of `s` (all of them when fewer).
pub fn take_chars(s: &str, n: usize) -> (r: String)
    ensures
        r@ == s@.take(if n < s@.len() { n as int } else { s@.len() as int }),
{
    let c = chars_of(s);
    let end = if n < c.len() {
        n
    } else {
        c.len()
    };
    let mut out = String::new();
    let mut i: usize = 0;
    while i < end
        invariant
            i <= end <= c@.len(),
            c@ == s@,
            out@ == s@.take(i as int),
        decreases end - i,
    {
        push_char(&mut out, c[i]);
        assert(s@.take(i + 1) =~= s@.take(i as int).push(s@[i as int]));
        i += 1;
    }
    out
}

/// Whether `s` begins with `p`.
pub fn starts_with(s: &str, p: &str) -> (r: bool)
    ensures
        r == (p@.len() <= s@.len() && s@.take(p@.len() as int) == p@),
{
    let x = chars_of(s);
    let y = chars_of(p);
    if y.len() > x.len() {
        return false;
    }
    let mut i: usize = 0;
    while i < y.len()
        invariant
            i <= y@.len() <= x@.len(),
            x@ == s@,
            y@ == p@,
            x@.take(i as int) == y@.take(i as int),
        decreases y@.len() - i,
    {
        if x[i] != y[i] {
            assert(s@.take(p@.len() as int)[i as int] != p@[i as int]);
            return false;
        }
        assert(x@.take(i + 1) =~= x@.take(i as int).push(x@[i as int]));
        assert(y@.take(i + 1) =~= y@.take(i as int).push(y@[i as int]));
        i += 1;
    }
    assert(y@.take(i as int) =~= y@);
    true
}

/// White space as `char::is_whitespace` defines it (the Unicode
/// White_Space property).
pub open spec fn is_ws(c: char) -> bool {
    let v = c as u32;
    ||| 9 <= v <= 13
    ||| v == 32
    ||| v == 0x85
    ||| v == 0xA0
    ||| v == 0x1680
    ||| 0x2000 <= v <= 0x200A
    ||| v == 0x2028
    ||| v == 0x2029
    ||| v == 0x202F
    ||| v == 0x205F
    ||| v == 0x3000
}

pub fn is_ws_exec(c: char) -> (r: bool)
    ensures
        r == is_ws(c),
{
    let v = c as u32;
    (9 <= v && v <= 13) || v == 32 || v == 0x85 || v == 0xA0 || v == 0x1680 || (0x2000 <= v && v
        <= 0x200A) || v == 0x2028 || v == 0x2029 || v == 0x202F || v == 0x205F || v == 0x3000
}

/// The number of leading white-space characters of `s` from `i`.
pub open spec fn ws_lead(s: Seq<char>, i: int) -> int
    decreases s.len() - i,
{
    if i < 0 || i >= s.len() || !is_ws(s[i]) {
        i
    } else {
        ws_lead(s, i + 1)
    }
}

/// The end of `s[..j]` without its trailing white space, down to `lo`.
pub open spec fn ws_trail(s: Seq<char>, lo: int, j: int) -> int
    decreases j - lo,
{
    if j <= lo || !is_ws(s[j - 1]) {
        j
    } else {
        ws_trail(s, lo, j - 1)
    }
}

/// `s` without its leading and trailing white space, as `str::trim` gives.
pub open spec fn trim(s: Seq<char>) -> Seq<char> {
    let a = ws_lead(s, 0);
    s.subrange(a, ws_trail(s, a, s.len() as int))
}

proof fn lemma_ws_lead(s: Seq<char>, i: int)
    requires
        0 <= i <= s.len(),
    ensures
        i <= ws_lead(s, i) <= s.len(),
    decreases s.len() - i,
{
    if i < s.len() && is_ws(s[i]) {
        lemma_ws_lead(s, i + 1);
    }
}

proof fn lemma_ws_trail(s: Seq<char>, lo: int, j: int)
    requires
        lo <= j,
    ensures
        lo <= ws_trail(s, lo, j) <= j,
    decreases j - lo,
{
    if j > lo && is_ws(s[j - 1]) {
        lemma_ws_trail(s, lo, j - 1);
    }
}

/// The characters of `c` from `a` to `b` as a string.
pub fn chars_range(c: &Vec<char>, a: usize, b: usize) -> (r: String)
    requires
        a <= b <= c@.len(),
    ensures
        r@ == c@.subrange(a as int, b as int),
{
    let mut out = String::new();
    let mut i = a;
    while i < b
        invariant
            a <= i <= b <= c@.len(),
            out@ == c@.subrange(a as int, i as int),
        decreases b - i,
    {
        push_char(&mut out, c[i]);
        assert(c@.subrange(a as int, i + 1) =~= c@.subrange(a as int, i as int).push(c@[i as int]));
        i += 1;
    }
    out
}

/// The bounds of `c[lo..hi]` without its leading and trailing white space.
pub fn trim_bounds(c: &Vec<char>, lo: usize, hi: usize) -> (r: (usize, usize))
    requires
        lo <= hi <= c@.len(),
    ensures
        r.0 <= r.1 <= hi,
        c@.subrange(r.0 as int, r.1 as int) == trim(c@.subrange(lo as int, hi as int)),
{
    let ghost s = c@.subrange(lo as int, hi as int);
    let mut a = lo;
    while a < hi && is_ws_exec(c[a])
        invariant
            lo <= a <= hi <= c@.len(),
            s == c@.subrange(lo as int, hi as int),
            ws_lead(s, 0) == ws_lead(s, a - lo),
        decreases hi - a,
    {
        a += 1;
    }
    let mut b = hi;
    proof {
        lemma_ws_lead(s, 0);
    }
    while b > a && is_ws_exec(c[b - 1])
        invariant
            lo <= a <= b <= hi <= c@.len(),
            s == c@.subrange(lo as int, hi as int),
            a - lo == ws_lead(s, 0),
            ws_trail(s, a - lo, s.len() as int) == ws_trail(s, a - lo, b - lo),
        decreases b - a,
    {
        b -= 1;
    }
    assert(c@.subrange(a as int, b as int) =~= s.subrange(a - lo, b - lo));
    (a, b)
}

/// The value of a string of decimal digits.
pub open spec fn digits_value(s: Seq<char>) -> nat
    decreases s.len(),
{
    if s.len() == 0 {
        0
    } else {
        digits_value(s.drop_last()) * 10 + (s.last() as nat - 48) as nat
    }
}

pub open spec fn is_digit(c: char) -> bool {
    '0' <= c <= '9'
}

pub open spec fn all_digits(s: Seq<char>) -> bool {
    forall|i: int| 0 <= i < s.len() ==> is_digit(#[trigger] s[i])
}

/// What `u64::from_str` gives: an optional '+' then decimal digits, at
/// least one, within range.
pub open spec fn parse_u64(s: Seq<char>) -> Option<u64> {
    let d = if s.len() > 0 && s[0] == '+' {
        s.drop_first()
    } else {
        s
    };
    if d.len() > 0 && all_digits(d) && digits_value(d) <= u64::MAX {
        Some(digits_value(d) as u64)
    } else {
        None
    }
}

/// `u64::from_str` on characters `c[a..b]`.
pub fn parse_u64_range(c: &Vec<char>, a: usize, b: usize) -> (r: Option<u64>)
    requires
        a <= b <= c@.len(),
    ensures
        r == parse_u64(c@.subrange(a as int, b as int)),
{
    let ghost s = c@.subrange(a as int, b as int);
    let start = if a < b && c[a] == '+' {
        a + 1
    } else {
        a
    };
    let ghost d = c@.subrange(start as int, b as int);
    assert(d =~= if s.len() > 0 && s[0] == '+' {
        s.drop_first()
    } else {
        s
    });
    if start == b {
        return None;
    }
    let mut v: u64 = 0;
    let mut i = start;
    while i < b
        invariant
            start <= i <= b <= c@.len(),
            d == c@.subrange(start as int, b as int),
            d.len() > 0,
            parse_u64(c@.subrange(a as int, b as int)) == (if d.len() > 0 && all_digits(d) && digits_value(d) <= u64::MAX {
                Some(digits_value(d) as u64)
            } else {
                None
            }),
            all_digits(c@.subrange(start as int, i as int)),
            v == digits_value(c@.subrange(start as int, i as int)),
        decreases b - i,
    {
        let ch = c[i];
        assert(c@.subrange(start as int, i + 1).drop_last() =~= c@.subrange(start as int, i as int));
        if !('0' <= ch && ch <= '9') {
            assert(!is_digit(d[i - start]));
            return None;
        }
        let digit = (ch as u32 - 48) as u64;
        if v > (u64::MAX - digit) / 10 {
            proof {
                lemma_digits_grow(d, (i - start + 1) as int);
                assert(d.take(i - start + 1) =~= c@.subrange(start as int, i + 1));
                assert(d.take(i - start + 1).drop_last() =~= c@.subrange(start as int, i as int));
            }
            return None;
        }
        v = v * 10 + digit;
        i += 1;
    }
    assert(c@.subrange(start as int, i as int) =~= d);
    Some(v)
}

/// A longer run of digits never has a smaller value.
proof fn lemma_digits_grow(d: Seq<char>, k: int)
    requires
        0 <= k <= d.len(),
    ensures
        all_digits(d) ==> digits_value(d.take(k)) <= digits_value(d),
    decreases d.len() - k,
{
    if k < d.len() {
        lemma_digits_grow(d, k + 1);
        if all_digits(d) {
            assert(d.take(k + 1).drop_last() =~= d.take(k));
            assert(is_digit(d[k]));
        }
    } else {
        assert(d.take(k) =~= d);
    }
}

} // verus!
