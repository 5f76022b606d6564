//! The decisions around the ffmpeg command-line tools: what their output
//! means (version line, decode progress and errors, transcode status) and
//! the base64 text of a decoded frame.

use vstd::prelude::*;
use crate::mp4::lines_text;
use crate::text::{
    all_digits, chars_of, chars_range, dec_chars, digits_value, first_line, first_line_or, is_digit, last_line,
    last_line_or, parse_u64, parse_u64_range, push_char, push_dec, trim, trim_bounds,
};

verus! {

/// Whether ffmpeg and ffprobe are installed, and ffmpeg's version line.
#[derive(Debug, Clone)]
pub struct FfmpegEnv {
    pub available: bool,
    pub version: String,
    pub ffprobe: bool,
}

/// The result of a full decode of a stream.
#[derive(Debug, Clone)]
pub struct CheckReport {
    pub frames: u64,
    pub error_count: usize,
    /// The error lines, at most 200.
    pub errors: Vec<String>,
}

/// The result of a transcode.
#[derive(Debug, Clone)]
pub struct TranscodeResult {
    pub success: bool,
    pub code: i32,
    pub error_tail: String,
}

/// A transcode request: input and output paths and extra encoder
/// arguments.
#[derive(Debug, Clone)]
pub struct TranscodeRequest {
    pub input: String,
    pub output: String,
    pub args: Vec<String>,
}

/// One stream of an ffprobe report, as far as the probe reads it.
#[derive(Debug, Clone)]
pub struct ProbeStream {
    pub codec_name: Option<String>,
    pub codec_type: Option<String>,
    pub width: Option<u32>,
    pub height: Option<u32>,
    pub pix_fmt: Option<String>,
    pub nb_frames: Option<String>,
}

/// What a probe shows of a file besides its frame rate and duration: the
/// codec, size, pixel format and frame count of its first video stream,
/// its container format, and whether it has audio.
#[derive(Debug, Clone)]
pub struct ProbeSummary {
    /// The index of the first video stream.
    pub video: usize,
    pub codec: String,
    pub width: u32,
    pub height: u32,
    pub pix_fmt: String,
    pub frame_count: Option<u64>,
    pub format_name: String,
    pub has_audio: bool,
}

/// Stream `s` is of type `t`.
pub open spec fn stream_is(s: ProbeStream, t: Seq<char>) -> bool {
    match s.codec_type {
        Some(x) => x@ == t,
        None => false,
    }
}

/// The text of `o`, or `d` when it is absent.
pub open spec fn text_or(o: Option<String>, d: Seq<char>) -> Seq<char> {
    match o {
        Some(x) => x@,
        None => d,
    }
}

/// The error of a report without a video stream.
pub open spec fn no_video_error() -> Seq<char> {
    "文件中没有视频轨道"@
}

fn string_or(o: &Option<String>, d: &str) -> (r: String)
    ensures
        r@ == text_or(*o, d@),
{
    match o {
        Some(x) => String::from_str(x.as_str()),
        None => String::from_str(d),
    }
}

fn stream_type_is(s: &ProbeStream, t: &str) -> (r: bool)
    ensures
        r == stream_is(*s, t@),
{
    match &s.codec_type {
        Some(x) => crate::text::str_eq(x.as_str(), t),
        None => false,
    }
}

/// Sums up an ffprobe report: its first video stream, its container format
/// name (`format_name`) and whether any stream is audio; an error when it
/// has no video stream.
pub fn probe_summary(streams: &Vec<ProbeStream>, format_name: &Option<String>) -> (r: Result<ProbeSummary, String>)
    ensures
        (r is Ok) <==> exists|i: int| 0 <= i < streams@.len() && stream_is(#[trigger] streams@[i], "video"@),
        r matches Err(e) ==> e@ == no_video_error(),
        r matches Ok(p) ==> {
            let v = streams@[p.video as int];
            &&& 0 <= p.video < streams@.len()
            &&& stream_is(v, "video"@)
            &&& forall|j: int| 0 <= j < p.video ==> !stream_is(#[trigger] streams@[j], "video"@)
            &&& p.codec@ == text_or(v.codec_name, "?"@)
            &&& p.width == match v.width {
                Some(w) => w,
                None => 0,
            }
            &&& p.height == match v.height {
                Some(h) => h,
                None => 0,
            }
            &&& p.pix_fmt@ == text_or(v.pix_fmt, "?"@)
            &&& p.frame_count == match v.nb_frames {
                Some(n) => parse_u64(n@),
                None => None,
            }
            &&& p.format_name@ == text_or(*format_name, "?"@)
            &&& p.has_audio == exists|j: int| 0 <= j < streams@.len() && stream_is(#[trigger] streams@[j], "audio"@)
        },
{
    let mut video: Option<usize> = None;
    let mut has_audio = false;
    let mut i: usize = 0;
    while i < streams.len()
        invariant
            i <= streams@.len(),
            match video {
                Some(k) => k < i && stream_is(streams@[k as int], "video"@) && forall|j: int|
                    0 <= j < k ==> !stream_is(#[trigger] streams@[j], "video"@),
                None => forall|j: int| 0 <= j < i ==> !stream_is(#[trigger] streams@[j], "video"@),
            },
            has_audio == exists|j: int| 0 <= j < i && stream_is(#[trigger] streams@[j], "audio"@),
        decreases streams@.len() - i,
    {
        if video.is_none() && stream_type_is(&streams[i], "video") {
            video = Some(i);
        }
        if stream_type_is(&streams[i], "audio") {
            has_audio = true;
        }
        i += 1;
    }
    let k = match video {
        Some(k) => k,
        None => {
            return Err(String::from_str("文件中没有视频轨道"));
        },
    };
    let v = &streams[k];
    let frame_count = match &v.nb_frames {
        Some(n) => parse_text(n.as_str()),
        None => None,
    };
    Ok(
        ProbeSummary {
            video: k,
            codec: string_or(&v.codec_name, "?"),
            width: match v.width {
                Some(w) => w,
                None => 0,
            },
            height: match v.height {
                Some(h) => h,
                None => 0,
            },
            pix_fmt: string_or(&v.pix_fmt, "?"),
            frame_count,
            format_name: string_or(format_name, "?"),
            has_audio,
        },
    )
}

/// `p` occurs in `s`.
pub open spec fn contains_text(s: Seq<char>, p: Seq<char>) -> bool {
    exists|i: int| 0 <= i && i + p.len() <= s.len() && #[trigger] s.subrange(i, i + p.len()) == p
}

fn occurs_at(c: &Vec<char>, i: usize, p: &Vec<char>) -> (r: bool)
    requires
        i + p@.len() <= c@.len(),
    ensures
        r == (c@.subrange(i as int, i + p@.len()) == p@),
{
    let n = c.len();
    let mut k: usize = 0;
    while k < p.len()
        invariant
            k <= p@.len(),
            i + p@.len() <= c@.len(),
            n == c@.len(),
            c@.subrange(i as int, i + k) == p@.take(k as int),
        decreases p@.len() - k,
    {
        if c[i + k] != p[k] {
            assert(c@.subrange(i as int, i + p@.len())[k as int] != p@[k as int]);
            return false;
        }
        assert(c@.subrange(i as int, i + k + 1) =~= c@.subrange(i as int, i + k).push(c@[i + k]));
        assert(p@.take(k + 1) =~= p@.take(k as int).push(p@[k as int]));
        k += 1;
    }
    assert(p@.take(k as int) =~= p@);
    true
}

/// Whether `p` occurs in `s`.
pub fn contains_str(s: &str, p: &str) -> (r: bool)
    ensures
        r == contains_text(s@, p@),
{
    let c = chars_of(s);
    let q = chars_of(p);
    if q.len() > c.len() {
        return false;
    }
    let limit = c.len() - q.len();
    let mut i: usize = 0;
    while i <= limit
        invariant
            c@ == s@,
            q@ == p@,
            limit == c@.len() - q@.len(),
            i <= limit + 1,
            forall|j: int| 0 <= j < i ==> #[trigger] s@.subrange(j, j + p@.len()) != p@,
        decreases limit + 1 - i,
    {
        if occurs_at(&c, i, &q) {
            return true;
        }
        if i == limit {
            assert forall|j: int| 0 <= j && j + p@.len() <= s@.len() implies #[trigger] s@.subrange(j, j + p@.len())
                != p@ by {
                if j == i {
                } else {
                    assert(j < i);
                }
            }
            return false;
        }
        i += 1;
    }
    false
}

/// A container that a browser plays as it is: one whose format name names
/// MP4 or MOV.
pub fn plays_in_browser(format_name: &str) -> (r: bool)
    ensures
        r == (contains_text(format_name@, "mp4"@) || contains_text(format_name@, "mov"@)),
{
    contains_str(format_name, "mp4") || contains_str(format_name, "mov")
}

/// The lower-case hexadecimal digit of `v` (`v < 16`).
pub open spec fn hex_lower(v: nat) -> char {
    if v < 10 {
        (48 + v) as char
    } else {
        (97 + v - 10) as char
    }
}

/// The last `n` hexadecimal digits of `v`, lower case, zero-padded.
pub open spec fn hex_digits(v: nat, n: nat) -> Seq<char>
    decreases n,
{
    if n == 0 {
        seq![]
    } else {
        hex_digits(v / 16, (n - 1) as nat).push(hex_lower(v % 16))
    }
}

fn push_hex_digits(s: &mut String, v: u32, n: u32)
    ensures
        final(s)@ == old(s)@ + hex_digits(v as nat, n as nat),
    decreases n,
{
    if n > 0 {
        push_hex_digits(s, v / 16, n - 1);
        let d = v % 16;
        let ch = if d < 10 {
            ((48 + d) as u8) as char
        } else {
            ((87 + d) as u8) as char
        };
        let ghost before = s@;
        push_char(s, ch);
        assert(s@ =~= old(s)@ + hex_digits(v as nat, n as nat));
    }
}

/// The number of the preview file of a path of `path_len` bytes made by
/// job `id`: the length times 2654435761 (0 when the product overflows),
/// kept to 32 bits, exclusive-or the job.
pub open spec fn preview_hash(path_len: usize, id: u32) -> u32 {
    let m = path_len * 2654435761;
    let h: u32 = if m <= usize::MAX {
        m as u32
    } else {
        0
    };
    h ^ id
}

/// The name of the MP4 file that a stream is copied into for preview.
pub fn preview_file_name(path_len: usize, id: u32) -> (r: String)
    ensures
        r@ == "avtool_preview_"@ + hex_digits(preview_hash(path_len, id) as nat, 8) + ".mp4"@,
{
    let h: u32 = match path_len.checked_mul(2654435761) {
        Some(m) => m as u32,
        None => 0,
    };
    let mut s = String::from_str("avtool_preview_");
    push_hex_digits(&mut s, h ^ id, 8);
    s.append(".mp4");
    s
}

/// The filter that selects frame `frame`.
pub fn frame_select(frame: u64) -> (r: String)
    ensures
        r@ == "select=eq(n\\,"@ + dec_chars(frame as nat) + ")"@,
{
    let mut s = String::from_str("select=eq(n\\,");
    push_dec(&mut s, frame);
    s.append(")");
    s
}

/// The error of a tool that failed: `prefix`, then the last line of its
/// error output (nothing when it is empty).
pub fn failure_text(prefix: &str, stderr: &str) -> (r: String)
    ensures
        r@ == prefix@ + match last_line(stderr@) {
            Some(l) => l,
            None => ""@,
        },
{
    let mut s = String::from_str(prefix);
    let l = last_line_or(stderr, "");
    s.append(l.as_str());
    s
}

/// The error of a frame that could not be decoded: its number, then the
/// last line of the error output ("无输出" when it is empty).
pub fn frame_failure_text(frame: u64, stderr: &str) -> (r: String)
    ensures
        r@ == "解码帧 #"@ + dec_chars(frame as nat) + " 失败: "@ + match last_line(stderr@) {
            Some(l) => l,
            None => "无输出"@,
        },
{
    let mut s = String::from_str("解码帧 #");
    push_dec(&mut s, frame);
    s.append(" 失败: ");
    let l = last_line_or(stderr, "无输出");
    s.append(l.as_str());
    s
}

/// The base64 digit of `v` (`v < 64`).
pub open spec fn b64_digit(v: nat) -> char {
    if v < 26 {
        (65 + v) as char
    } else if v < 52 {
        (97 + v - 26) as char
    } else if v < 62 {
        (48 + v - 52) as char
    } else if v == 62 {
        '+'
    } else {
        '/'
    }
}

/// The four base64 characters of a group of one to three bytes, padded
/// with '='.
pub open spec fn b64_quad(c: Seq<u8>) -> Seq<char> {
    let b1: nat = if c.len() > 1 {
        c[1] as nat
    } else {
        0
    };
    let b2: nat = if c.len() > 2 {
        c[2] as nat
    } else {
        0
    };
    let n = c[0] * 65536 + b1 * 256 + b2;
    seq![
        b64_digit(((n / 262144) % 64) as nat),
        b64_digit(((n / 4096) % 64) as nat),
        if c.len() > 1 {
            b64_digit(((n / 64) % 64) as nat)
        } else {
            '='
        },
        if c.len() > 2 {
            b64_digit((n % 64) as nat)
        } else {
            '='
        },
    ]
}

/// The base64 text (standard alphabet, padded) of `d`.
pub open spec fn b64_text(d: Seq<u8>) -> Seq<char>
    decreases d.len(),
{
    if d.len() == 0 {
        seq![]
    } else if d.len() <= 3 {
        b64_quad(d)
    } else {
        b64_quad(d.take(3)) + b64_text(d.skip(3))
    }
}

fn b64_digit_exec(v: u32) -> (c: char)
    requires
        v < 64,
    ensures
        c == b64_digit(v as nat),
{
    if v < 26 {
        ((65 + v) as u8) as char
    } else if v < 52 {
        ((97 + v - 26) as u8) as char
    } else if v < 62 {
        ((48 + v - 52) as u8) as char
    } else if v == 62 {
        '+'
    } else {
        '/'
    }
}

/// Base64 (standard alphabet, with padding).
pub fn b64(data: &[u8]) -> (r: String)
    ensures
        r@ == b64_text(data@),
{
    let mut out = String::new();
    let mut i: usize = 0;
    let len = data.len();
    assert(data@.skip(0) =~= data@);
    while i < data.len()
        invariant
            i <= data@.len(),
            data@.len() == len,
            out@ + b64_text(data@.skip(i as int)) == b64_text(data@),
        decreases data@.len() - i,
    {
        let k = if data.len() - i < 3 {
            data.len() - i
        } else {
            3
        };
        let b0 = data[i] as u32;
        let b1 = if k > 1 {
            data[i + 1] as u32
        } else {
            0
        };
        let b2 = if k > 2 {
            data[i + 2] as u32
        } else {
            0
        };
        let n = b0 * 65536 + b1 * 256 + b2;
        let ghost rest = data@.skip(i as int);
        let ghost before = out@;
        push_char(&mut out, b64_digit_exec((n / 262144) % 64));
        push_char(&mut out, b64_digit_exec((n / 4096) % 64));
        push_char(&mut out, if k > 1 {
            b64_digit_exec((n / 64) % 64)
        } else {
            '='
        });
        push_char(&mut out, if k > 2 {
            b64_digit_exec(n % 64)
        } else {
            '='
        });
        proof {
            assert(out@ =~= before + b64_quad(rest.take(k as int)));
            if rest.len() <= 3 {
                assert(rest.take(k as int) =~= rest);
                assert(data@.skip(i + k) =~= Seq::<u8>::empty());
            } else {
                assert(rest.skip(3) =~= data@.skip(i + 3));
            }
        }
        i += k;
    }
    assert(data@.skip(i as int) =~= Seq::<u8>::empty());
    assert(out@ + seq![] =~= out@);
    out
}

pub proof fn lemma_b64_len(d: Seq<u8>)
    ensures
        b64_text(d).len() == 4 * ((d.len() + 2) / 3),
    decreases d.len(),
{
    if d.len() > 3 {
        lemma_b64_len(d.skip(3));
    }
}

/// The environment found: ffmpeg's version line when `ffmpeg -version`
/// succeeded with output `version_text`, and whether ffprobe answered.
pub fn detect_env(version_text: Option<&str>, ffprobe: bool) -> (r: FfmpegEnv)
    ensures
        match version_text {
            Some(t) => r.available && r.ffprobe == ffprobe && r.version@ == match first_line(t@) {
                Some(l) => l,
                None => "ffmpeg"@,
            },
            None => !r.available && !r.ffprobe && r.version@.len() == 0,
        },
{
    match version_text {
        Some(t) => FfmpegEnv { available: true, version: first_line_or(t, "ffmpeg"), ffprobe },
        None => FfmpegEnv { available: false, version: String::new(), ffprobe: false },
    }
}

/// The first index of `c` in `s` from `i`.
pub open spec fn index_from(s: Seq<char>, i: int, c: char) -> Option<int>
    decreases s.len() - i,
{
    if i < 0 || i >= s.len() {
        None
    } else if s[i] == c {
        Some(i)
    } else {
        index_from(s, i + 1, c)
    }
}

pub proof fn lemma_index_from(s: Seq<char>, i: int, c: char)
    ensures
        index_from(s, i, c) matches Some(k) ==> i <= k < s.len() && s[k] == c,
        index_from(s, i, c) is None && 0 <= i ==> forall|j: int| i <= j < s.len() ==> s[j] != c,
    decreases s.len() - i,
{
    if !(i < 0 || i >= s.len()) && s[i] != c {
        lemma_index_from(s, i + 1, c);
    }
}

/// The pieces of `s` from `i` between the separators `c`, as `str::split`
/// gives them.
pub open spec fn pieces_from(s: Seq<char>, i: int, c: char) -> Seq<Seq<char>>
    decreases s.len() - i,
{
    if i < 0 || i > s.len() {
        seq![]
    } else {
        match index_from(s, i, c) {
            None => seq![s.subrange(i, s.len() as int)],
            Some(k) => {
                proof {
                    lemma_index_from(s, i, c);
                }
                seq![s.subrange(i, k)] + pieces_from(s, k + 1, c)
            },
        }
    }
}

/// The leading decimal digits of `s`.
pub open spec fn digit_run(s: Seq<char>) -> Seq<char>
    decreases s.len(),
{
    if s.len() == 0 || !is_digit(s[0]) {
        seq![]
    } else {
        seq![s[0]] + digit_run(s.drop_first())
    }
}

/// One piece of decode-check output: a "frame=" progress count raises the
/// frame count; another non-blank piece is an error line (200 kept).
pub open spec fn check_step(p: Seq<char>, frames: nat, errs: Seq<Seq<char>>) -> (nat, Seq<Seq<char>>) {
    let t = trim(p);
    if t.len() == 0 {
        (frames, errs)
    } else if t.len() >= 6 && t.take(6) == "frame="@ {
        match parse_u64(digit_run(t.skip(6))) {
            Some(f) => (if f > frames {
                f as nat
            } else {
                frames
            }, errs),
            None => (frames, errs),
        }
    } else if errs.len() < 200 {
        (frames, errs.push(t))
    } else {
        (frames, errs)
    }
}

/// The pieces of decode-check output, one after the other.
pub open spec fn check_all(ps: Seq<Seq<char>>, frames: nat, errs: Seq<Seq<char>>) -> (nat, Seq<Seq<char>>)
    decreases ps.len(),
{
    if ps.len() == 0 {
        (frames, errs)
    } else {
        let (f, e) = check_step(ps[0], frames, errs);
        check_all(ps.drop_first(), f, e)
    }
}

/// The end of the digit run of `c` from `a` (before `b`).
fn digit_end(c: &Vec<char>, a: usize, b: usize) -> (r: usize)
    requires
        a <= b <= c@.len(),
    ensures
        a <= r <= b,
        c@.subrange(a as int, r as int) == digit_run(c@.subrange(a as int, b as int)),
    decreases b - a,
{
    if a < b && '0' <= c[a] && c[a] <= '9' {
        let r = digit_end(c, a + 1, b);
        proof {
            let s = c@.subrange(a as int, b as int);
            assert(s.drop_first() =~= c@.subrange(a + 1, b as int));
            assert(c@.subrange(a as int, r as int) =~= seq![s[0]] + c@.subrange(a + 1, r as int));
        }
        r
    } else {
        assert(c@.subrange(a as int, a as int) =~= Seq::<char>::empty());
        a
    }
}

/// Handles one piece `c[a..b]` of decode-check output.
fn check_piece(c: &Vec<char>, a: usize, b: usize, frames: u64, errors: &mut Vec<String>) -> (r: u64)
    requires
        a <= b <= c@.len(),
    ensures
        (r as nat, lines_text(final(errors)@)) == check_step(
            c@.subrange(a as int, b as int),
            frames as nat,
            lines_text(old(errors)@),
        ),
{
    let (ta, tb) = trim_bounds(c, a, b);
    let ghost t = c@.subrange(ta as int, tb as int);
    if ta == tb {
        return frames;
    }
    let is_frame = tb - ta >= 6 && c[ta] == 'f' && c[ta + 1] == 'r' && c[ta + 2] == 'a' && c[ta + 3]
        == 'm' && c[ta + 4] == 'e' && c[ta + 5] == '=';
    proof {
        reveal_strlit("frame=");
        if tb - ta >= 6 {
            if is_frame {
                assert(t.take(6) =~= "frame="@);
            } else {
                assert(t.take(6) != "frame="@) by {
                    if t.take(6) == "frame="@ {
                        assert(t.take(6)[0] == 'f' && t.take(6)[1] == 'r' && t.take(6)[2] == 'a');
                        assert(t.take(6)[3] == 'm' && t.take(6)[4] == 'e' && t.take(6)[5] == '=');
                    }
                }
            }
        }
    }
    if is_frame {
        let de = digit_end(c, ta + 6, tb);
        assert(t.skip(6) =~= c@.subrange(ta + 6, tb as int));
        match parse_u64_range(c, ta + 6, de) {
            Some(f) => if f > frames {
                f
            } else {
                frames
            },
            None => frames,
        }
    } else if errors.len() < 200 {
        let line = chars_range(c, ta, tb);
        let ghost before = lines_text(errors@);
        errors.push(line);
        assert(lines_text(errors@) =~= before.push(t));
        frames
    } else {
        frames
    }
}

/// Handles one line of the decode-check output: its pieces between
/// carriage returns, in order. Returns the new frame count.
pub fn scan_check_line(line: &str, frames: u64, errors: &mut Vec<String>) -> (r: u64)
    ensures
        (r as nat, lines_text(final(errors)@)) == check_all(
            pieces_from(line@, 0, '\r'),
            frames as nat,
            lines_text(old(errors)@),
        ),
{
    let c = chars_of(line);
    let ghost s = line@;
    let ghost goal = check_all(pieces_from(s, 0, '\r'), frames as nat, lines_text(old(errors)@));
    let mut f = frames;
    let mut start: usize = 0;
    loop
        invariant
            c@ == s,
            s == line@,
            start <= s.len(),
            goal == check_all(pieces_from(line@, 0, '\r'), frames as nat, lines_text(old(errors)@)),
            goal == check_all(pieces_from(s, start as int, '\r'), f as nat, lines_text(errors@)),
        decreases s.len() - start,
    {
        let mut i = start;
        while i < c.len() && c[i] != '\r'
            invariant
                start <= i <= s.len(),
                c@ == s,
                index_from(s, start as int, '\r') == index_from(s, i as int, '\r'),
            decreases s.len() - i,
        {
            i += 1;
        }
        let ghost ps = pieces_from(s, start as int, '\r');
        let ghost f0 = f as nat;
        let ghost e0 = lines_text(errors@);
        f = check_piece(&c, start, i, f, errors);
        proof {
            lemma_index_from(s, start as int, '\r');
            if i < c@.len() {
                assert(index_from(s, start as int, '\r') == Some(i as int));
            }
            assert(ps[0] == s.subrange(start as int, i as int));
            assert(check_all(ps, f0, e0) == check_all(ps.drop_first(), f as nat, lines_text(errors@)));
        }
        if i == c.len() {
            assert(ps.drop_first() =~= Seq::<Seq<char>>::empty());
            return f;
        }
        proof {
            assert(ps.drop_first() =~= pieces_from(s, i + 1, '\r'));
        }
        start = i + 1;
    }
}

/// Keeps the last 200 lines of a process's error output.
pub fn keep_error_line(buf: &mut Vec<String>, line: String)
    ensures
        lines_text(final(buf)@) == if old(buf)@.len() + 1 > 200 {
            lines_text(old(buf)@).push(line@).drop_first()
        } else {
            lines_text(old(buf)@).push(line@)
        },
{
    let ghost before = lines_text(buf@);
    let ghost l = line@;
    buf.push(line);
    assert(lines_text(buf@) =~= before.push(l));
    if buf.len() > 200 {
        let ghost pushed = buf@;
        buf.remove(0);
        assert(lines_text(buf@) =~= lines_text(pushed).drop_first());
    }
}

/// Lines joined by '\n'.
pub open spec fn join_lines(v: Seq<Seq<char>>) -> Seq<char>
    decreases v.len(),
{
    if v.len() == 0 {
        seq![]
    } else if v.len() == 1 {
        v[0]
    } else {
        join_lines(v.drop_last()) + "\n"@ + v.last()
    }
}

/// The outcome of a transcode: "已取消" when cancelled, else the last five
/// error lines.
pub fn transcode_result(success: bool, code: i32, cancelled: bool, tail: &Vec<String>) -> (r: TranscodeResult)
    ensures
        r.success == success,
        r.code == code,
        r.error_tail@ == if cancelled {
            "已取消"@
        } else {
            join_lines(lines_text(tail@).skip(if tail@.len() < 5 { 0 } else { tail@.len() - 5 }))
        },
{
    if cancelled {
        return TranscodeResult { success, code, error_tail: String::from_str("已取消") };
    }
    let start = if tail.len() < 5 {
        0
    } else {
        tail.len() - 5
    };
    let ghost v = lines_text(tail@).skip(start as int);
    let mut out = String::new();
    let mut i = start;
    while i < tail.len()
        invariant
            start <= i <= tail@.len(),
            v == lines_text(tail@).skip(start as int),
            out@ == join_lines(v.take(i - start)),
        decreases tail@.len() - i,
    {
        if i > start {
            out.append("\n");
        }
        out.append(tail[i].as_str());
        assert(v.take(i - start + 1).drop_last() =~= v.take(i - start));
        i += 1;
    }
    assert(v.take(i - start) =~= v);
    TranscodeResult { success, code, error_tail: out }
}

/// What the transcode progress reader knows: the values reported last
/// (the output time in microseconds) and the key/value pairs of the block
/// being read.
#[derive(Debug, Clone)]
pub struct ProgressState {
    pub frame: u64,
    pub out_time_us: u64,
    pub speed: String,
    pub total_size: u64,
    pub kv: Vec<(String, String)>,
}

impl ProgressState {
    pub fn new() -> (r: Self)
        ensures
            r.frame == 0,
            r.out_time_us == 0,
            r.speed@.len() == 0,
            r.total_size == 0,
            r.kv@.len() == 0,
    {
        ProgressState { frame: 0, out_time_us: 0, speed: String::new(), total_size: 0, kv: Vec::new() }
    }
}

/// The text of key/value pairs.
pub open spec fn kv_text(kv: Seq<(String, String)>) -> Seq<(Seq<char>, Seq<char>)> {
    kv.map_values(|p: (String, String)| (p.0@, p.1@))
}

/// The value last given to key `k`.
pub open spec fn kv_get(kv: Seq<(Seq<char>, Seq<char>)>, k: Seq<char>) -> Option<Seq<char>>
    decreases kv.len(),
{
    if kv.len() == 0 {
        None
    } else if kv.last().0 == k {
        Some(kv.last().1)
    } else {
        kv_get(kv.drop_last(), k)
    }
}

/// The key/value pair of a progress line: the trimmed text split at its
/// first '=', both sides trimmed.
pub open spec fn kv_of(line: Seq<char>) -> Option<(Seq<char>, Seq<char>)> {
    let t = trim(line);
    match index_from(t, 0, '=') {
        Some(e) => Some((trim(t.take(e)), trim(t.skip(e + 1)))),
        None => None,
    }
}

/// The number that `v` holds, or `d`.
pub open spec fn parsed_or(v: Option<Seq<char>>, d: u64) -> u64 {
    match v {
        Some(x) => match parse_u64(x) {
            Some(n) => n,
            None => d,
        },
        None => d,
    }
}

fn parse_text(s: &str) -> (r: Option<u64>)
    ensures
        r == parse_u64(s@),
{
    let c = chars_of(s);
    assert(c@.subrange(0, c@.len() as int) =~= c@);
    parse_u64_range(&c, 0, c.len())
}

/// The index of the pair last given to key `k`.
fn kv_find(kv: &Vec<(String, String)>, k: &str) -> (r: Option<usize>)
    ensures
        match kv_get(kv_text(kv@), k@) {
            Some(v) => r is Some && r->0 < kv@.len() && kv@[r->0 as int].1@ == v,
            None => r is None,
        },
{
    let mut i = kv.len();
    assert(kv_text(kv@).take(i as int) =~= kv_text(kv@));
    while i > 0
        invariant
            i <= kv@.len(),
            kv_get(kv_text(kv@), k@) == kv_get(kv_text(kv@).take(i as int), k@),
        decreases i,
    {
        assert(kv_text(kv@).take(i as int).drop_last() =~= kv_text(kv@).take(i - 1));
        if crate::text::str_eq(kv[i - 1].0.as_str(), k) {
            return Some(i - 1);
        }
        i -= 1;
    }
    None
}

fn get_number(kv: &Vec<(String, String)>, k: &str, d: u64) -> (r: u64)
    ensures
        r == parsed_or(kv_get(kv_text(kv@), k@), d),
{
    match kv_find(kv, k) {
        Some(i) => match parse_text(kv[i].1.as_str()) {
            Some(n) => n,
            None => d,
        },
        None => d,
    }
}

/// Reads one line of ffmpeg's `-progress` output: a `key=value` pair is
/// added to the block; when the block holds a "progress" key it is closed,
/// the reported values taken from it (keeping the last ones where a value is
/// missing or not a number; the speed is empty when missing). Returns
/// whether a block was closed.
pub fn progress_line(state: &mut ProgressState, line: &str) -> (r: bool)
    ensures
        ({
            let kv1 = match kv_of(line@) {
                Some(p) => kv_text(old(state).kv@).push(p),
                None => kv_text(old(state).kv@),
            };
            &&& r == (kv_get(kv1, "progress"@) is Some)
            &&& r ==> {
                &&& final(state).frame == parsed_or(kv_get(kv1, "frame"@), old(state).frame)
                &&& final(state).out_time_us == parsed_or(kv_get(kv1, "out_time_us"@), old(state).out_time_us)
                &&& final(state).speed@ == match kv_get(kv1, "speed"@) {
                    Some(v) => v,
                    None => ""@,
                }
                &&& final(state).total_size == parsed_or(kv_get(kv1, "total_size"@), old(state).total_size)
                &&& final(state).kv@.len() == 0
            }
            &&& !r ==> {
                &&& final(state).frame == old(state).frame
                &&& final(state).out_time_us == old(state).out_time_us
                &&& final(state).speed == old(state).speed
                &&& final(state).total_size == old(state).total_size
                &&& kv_text(final(state).kv@) == kv1
            }
        }),
{
    let c = chars_of(line);
    assert(c@.subrange(0, c@.len() as int) =~= c@);
    let (ta, tb) = trim_bounds(&c, 0, c.len());
    let ghost t = c@.subrange(ta as int, tb as int);
    let mut e = ta;
    while e < tb && c[e] != '='
        invariant
            ta <= e <= tb <= c@.len(),
            t == c@.subrange(ta as int, tb as int),
            index_from(t, 0, '=') == index_from(t, e - ta, '='),
        decreases tb - e,
    {
        e += 1;
    }
    proof {
        lemma_index_from(t, e - ta, '=');
    }
    let ghost kv0 = kv_text(state.kv@);
    if e < tb {
        let (ka, kb) = trim_bounds(&c, ta, e);
        let (va, vb) = trim_bounds(&c, e + 1, tb);
        let key = chars_range(&c, ka, kb);
        let value = chars_range(&c, va, vb);
        assert(t.take(e - ta) =~= c@.subrange(ta as int, e as int));
        assert(t.skip(e - ta + 1) =~= c@.subrange(e + 1, tb as int));
        state.kv.push((key, value));
        assert(kv_text(state.kv@) =~= kv0.push(kv_of(line@)->0));
    }
    let ghost kv1 = match kv_of(line@) {
        Some(p) => kv0.push(p),
        None => kv0,
    };
    assert(kv_text(state.kv@) == kv1);
    if kv_find(&state.kv, "progress").is_some() {
        state.frame = get_number(&state.kv, "frame", state.frame);
        state.out_time_us = get_number(&state.kv, "out_time_us", state.out_time_us);
        state.speed = match kv_find(&state.kv, "speed") {
            Some(i) => state.kv[i].1.clone(),
            None => String::new(),
        };
        state.total_size = get_number(&state.kv, "total_size", state.total_size);
        assert(state.frame == parsed_or(kv_get(kv1, "frame"@), old(state).frame));
        assert(state.out_time_us == parsed_or(kv_get(kv1, "out_time_us"@), old(state).out_time_us));
        assert(state.total_size == parsed_or(kv_get(kv1, "total_size"@), old(state).total_size));
        assert(kv_get(kv1, "progress"@) is Some);
        proof {
            reveal_strlit("");
        }
        state.kv.clear();
        true
    } else {
        false
    }
}

} // verus!
