use avtool::commands::{build_entry, hex_window, load_entry};
use avtool::ffmpeg::b64;
use avtool::h264::bitreader::BitReader;
use avtool::h264::common::{level_name, profile_name, Field, FieldGroup};
use avtool::h264::nal::{find_start_code, is_annexb, is_mp4, nal_type_name, scan_annexb, unescape_rbsp};
use avtool::h264::pps::parse_pps;
use avtool::h264::sei::{parse_sei, sei_type_name};
use avtool::h264::slice::{parse_slice_header, slice_type_name};
use avtool::h264::sps::parse_sps;
use avtool::h264::{compare_sps_bytes, compare_tables, nalu_detail_bytes, parse_stream_bytes};
use avtool::mp4::{extract_annexb_bytes, find_all, find_first, hex_bytes, parse_avcc_full, parse_boxes, parse_mp4_bytes};
use avtool::text::{first_line_or, str_lt};
use avtool::update::update_info;

// ---------- test stream builders ----------

struct BitWriter {
    bits: Vec<bool>,
}

impl BitWriter {
    fn new() -> Self {
        BitWriter { bits: Vec::new() }
    }

    fn u(&mut self, v: u32, n: u32) {
        for i in (0..n).rev() {
            self.bits.push(((v >> i) & 1) == 1);
        }
    }

    fn ue(&mut self, v: u32) {
        let val = v + 1;
        let n = 32 - val.leading_zeros();
        for _ in 0..(n - 1) {
            self.bits.push(false);
        }
        self.u(val, n);
    }

    fn se(&mut self, v: i32) {
        let ue_val = if v <= 0 { (-v) as u32 * 2 } else { v as u32 * 2 - 1 };
        self.ue(ue_val);
    }

    fn rbsp_trailing(&mut self) {
        self.bits.push(true);
        while self.bits.len() % 8 != 0 {
            self.bits.push(false);
        }
    }

    fn to_bytes(&self) -> Vec<u8> {
        let mut out = vec![0u8; (self.bits.len() + 7) / 8];
        for (i, &b) in self.bits.iter().enumerate() {
            if b {
                out[i / 8] |= 1 << (7 - (i % 8));
            }
        }
        out
    }
}

fn nal(nal_header: u8, body: &[u8]) -> Vec<u8> {
    let mut v = vec![nal_header];
    v.extend_from_slice(body);
    v
}

fn build_test_sps_nalu(level_idc: u8) -> Vec<u8> {
    let mut w = BitWriter::new();
    w.u(66, 8);
    w.u(1, 1);
    w.u(1, 1);
    w.u(0, 4);
    w.u(0, 2);
    w.u(level_idc as u32, 8);
    w.ue(0);
    w.ue(0);
    w.ue(2);
    w.ue(1);
    w.ue(0);
    w.ue(19);
    w.ue(14);
    w.u(1, 1);
    w.u(1, 1);
    w.u(0, 1);
    w.u(0, 1);
    w.rbsp_trailing();
    nal(0x67, &w.to_bytes())
}

fn build_test_pps_nalu() -> Vec<u8> {
    let mut w = BitWriter::new();
    w.ue(0);
    w.ue(0);
    w.u(0, 1);
    w.u(0, 1);
    w.ue(0);
    w.ue(0);
    w.ue(0);
    w.u(0, 1);
    w.u(0, 2);
    w.se(0);
    w.se(0);
    w.se(0);
    w.u(0, 1);
    w.u(0, 1);
    w.u(0, 1);
    w.rbsp_trailing();
    nal(0x68, &w.to_bytes())
}

fn build_test_idr_slice_nalu() -> Vec<u8> {
    let mut w = BitWriter::new();
    w.ue(0);
    w.ue(7);
    w.ue(0);
    w.u(0, 4);
    w.ue(0);
    w.u(0, 1);
    w.u(0, 1);
    w.se(0);
    w.rbsp_trailing();
    nal(0x65, &w.to_bytes())
}

fn build_test_p_slice_nalu(frame_num: u32) -> Vec<u8> {
    let mut w = BitWriter::new();
    w.ue(0);
    w.ue(5);
    w.ue(0);
    w.u(frame_num, 4);
    w.u(0, 1);
    w.u(0, 1);
    w.u(0, 1);
    w.se(0);
    w.rbsp_trailing();
    nal(0x41, &w.to_bytes())
}

fn build_test_stream(level_idc: u8) -> Vec<u8> {
    let mut v: Vec<u8> = Vec::new();
    v.extend_from_slice(&[0x00, 0x00, 0x00, 0x01, 0x09, 0x10]);
    v.extend_from_slice(&[0x00, 0x00, 0x01]);
    v.extend(build_test_sps_nalu(level_idc));
    v.extend_from_slice(&[0x00, 0x00, 0x00, 0x01]);
    v.extend(build_test_pps_nalu());
    v.extend_from_slice(&[0x00, 0x00, 0x00, 0x01]);
    v.extend(build_test_idr_slice_nalu());
    for fn_ in 1..3u32 {
        v.extend_from_slice(&[0x00, 0x00, 0x00, 0x01]);
        v.extend(build_test_p_slice_nalu(fn_));
    }
    v
}

fn box4(btype: &str, payload: &[u8]) -> Vec<u8> {
    let mut v = ((payload.len() as u32 + 8).to_be_bytes()).to_vec();
    v.extend_from_slice(btype.as_bytes());
    v.extend_from_slice(payload);
    v
}

fn build_test_mp4(sps: &[u8], pps: &[u8]) -> Vec<u8> {
    let sample = |a: u8, b: u8| {
        let mut s = Vec::new();
        s.extend_from_slice(&2u32.to_be_bytes());
        s.extend_from_slice(&[0x41, a]);
        s.extend_from_slice(&2u32.to_be_bytes());
        s.extend_from_slice(&[0x41, b]);
        s
    };
    let samples: Vec<Vec<u8>> = vec![
        sample(0x01, 0x11),
        sample(0x02, 0x22),
        sample(0x03, 0x33),
        sample(0x04, 0x44),
    ];

    let mut avcc_payload = vec![1u8, 66, 0xC0, 30, 0xFF, 0xE1];
    avcc_payload.extend_from_slice(&(sps.len() as u16).to_be_bytes());
    avcc_payload.extend_from_slice(sps);
    avcc_payload.push(1);
    avcc_payload.extend_from_slice(&(pps.len() as u16).to_be_bytes());
    avcc_payload.extend_from_slice(pps);
    let avcc = box4("avcC", &avcc_payload);

    let mut avc1_body = vec![0u8; 78];
    avc1_body[6..8].copy_from_slice(&1u16.to_be_bytes());
    avc1_body[24..26].copy_from_slice(&320u16.to_be_bytes());
    avc1_body[26..28].copy_from_slice(&240u16.to_be_bytes());
    avc1_body[28..32].copy_from_slice(&0x0048_0000u32.to_be_bytes());
    avc1_body[32..36].copy_from_slice(&0x0048_0000u32.to_be_bytes());
    avc1_body[40..42].copy_from_slice(&1u16.to_be_bytes());
    avc1_body[74..76].copy_from_slice(&0x0018u16.to_be_bytes());
    avc1_body.extend_from_slice(&avcc);
    let avc1 = box4("avc1", &avc1_body);

    let stsd = {
        let mut p = 0u32.to_be_bytes().to_vec();
        p.extend_from_slice(&1u32.to_be_bytes());
        p.extend_from_slice(&avc1);
        box4("stsd", &p)
    };

    let stsz = {
        let mut p = vec![0u8; 4];
        p.extend_from_slice(&0u32.to_be_bytes());
        p.extend_from_slice(&(samples.len() as u32).to_be_bytes());
        for s in &samples {
            p.extend_from_slice(&(s.len() as u32).to_be_bytes());
        }
        box4("stsz", &p)
    };

    let stsc = {
        let mut p = vec![0u8; 4];
        p.extend_from_slice(&1u32.to_be_bytes());
        p.extend_from_slice(&1u32.to_be_bytes());
        p.extend_from_slice(&2u32.to_be_bytes());
        p.extend_from_slice(&1u32.to_be_bytes());
        box4("stsc", &p)
    };

    let ftyp = box4("ftyp", b"isom\x00\x00\x02\x00isomiso2avc1mp41");
    let mvhd = {
        let mut p = vec![0u8];
        p.extend_from_slice(&[0, 0, 0]);
        p.extend_from_slice(&[0u8; 8]);
        p.extend_from_slice(&1000u32.to_be_bytes());
        p.extend_from_slice(&4000u32.to_be_bytes());
        p.extend_from_slice(&[0u8; 80]);
        box4("mvhd", &p)
    };
    let hdlr = {
        let mut p = vec![0u8; 4];
        p.extend_from_slice(&0u32.to_be_bytes());
        p.extend_from_slice(b"vide");
        p.extend_from_slice(&[0u8; 12]);
        box4("hdlr", &p)
    };
    let mdhd = {
        let mut p = vec![0u8];
        p.extend_from_slice(&[0, 0, 0]);
        p.extend_from_slice(&[0u8; 8]);
        p.extend_from_slice(&1000u32.to_be_bytes());
        p.extend_from_slice(&4000u32.to_be_bytes());
        box4("mdhd", &p)
    };
    let tkhd = {
        let mut p = vec![0u8];
        p.extend_from_slice(&[0, 0, 7]);
        p.extend_from_slice(&[0u8; 8]);
        p.extend_from_slice(&1u32.to_be_bytes());
        p.extend_from_slice(&0u32.to_be_bytes());
        p.extend_from_slice(&4000u32.to_be_bytes());
        p.extend_from_slice(&[0u8; 8]);
        p.extend_from_slice(&[0u8; 2]);
        p.extend_from_slice(&[0u8; 2]);
        p.extend_from_slice(&[0u8; 2]);
        p.extend_from_slice(&[0u8; 2]);
        p.extend_from_slice(&[0u8; 36]);
        p.extend_from_slice(&(320u32 << 16).to_be_bytes());
        p.extend_from_slice(&(240u32 << 16).to_be_bytes());
        box4("tkhd", &p)
    };

    let stco_size = 8 + 4 + 4 + 8;
    let first_pass = {
        let stbl = box4("stbl", &[stsd.clone(), stsc.clone(), stsz.clone()].concat());
        let minf = box4("minf", &stbl);
        let mdia = box4("mdia", &[hdlr.clone(), mdhd.clone(), minf].concat());
        let trak = box4("trak", &[tkhd.clone(), mdia].concat());
        box4("moov", &[mvhd.clone(), trak].concat())
    };
    let mdat_data_start = (ftyp.len() + first_pass.len() + stco_size + 8) as u64;
    let chunk1_end = mdat_data_start + (samples[0].len() + samples[1].len()) as u64;
    let stco = {
        let mut p = vec![0u8; 4];
        p.extend_from_slice(&2u32.to_be_bytes());
        p.extend_from_slice(&(mdat_data_start as u32).to_be_bytes());
        p.extend_from_slice(&(chunk1_end as u32).to_be_bytes());
        box4("stco", &p)
    };
    assert_eq!(stco.len(), stco_size);

    let stbl = box4("stbl", &[stsd, stsc, stsz, stco].concat());
    let minf = box4("minf", &stbl);
    let mdia = box4("mdia", &[hdlr, mdhd, minf].concat());
    let trak = box4("trak", &[tkhd, mdia].concat());
    let moov = box4("moov", &[mvhd, trak].concat());
    assert_eq!(moov.len(), first_pass.len() + stco_size);

    let mut mdat_payload = Vec::new();
    for s in &samples {
        mdat_payload.extend_from_slice(s);
    }
    let mdat = box4("mdat", &mdat_payload);

    [ftyp, moov, mdat].concat()
}

fn all_fields(groups: &[avtool::h264::common::FieldGroup]) -> Vec<&Field> {
    groups.iter().flat_map(|g| g.fields.iter()).collect()
}

// ---------- bit reader ----------

#[test]
fn read_bits_basic() {
    let data = [0b1011_0010, 0b0100_0000];
    let mut br = BitReader::new(&data);
    assert_eq!(br.read_bit().unwrap(), 1);
    assert_eq!(br.read_bits(3).unwrap(), 0b011);
    assert_eq!(br.read_bits(4).unwrap(), 0b0010);
    assert_eq!(br.read_bits(8).unwrap(), 0b0100_0000);
}

#[test]
fn ue_se_roundtrip() {
    let mut w = BitWriter::new();
    let ue_vals: Vec<u32> = (0..=40).collect();
    let se_vals: Vec<i32> = (-20..=20).collect();
    for &v in &ue_vals {
        w.ue(v);
    }
    for &v in &se_vals {
        w.se(v);
    }
    w.rbsp_trailing();
    let bytes = w.to_bytes();
    let mut br = BitReader::new(&bytes);
    for &v in &ue_vals {
        assert_eq!(br.read_ue().unwrap(), v, "ue roundtrip {v}");
    }
    for &v in &se_vals {
        assert_eq!(br.read_se().unwrap(), v, "se roundtrip {v}");
    }
    assert!(!br.more_rbsp_data());
}

#[test]
fn more_rbsp_data_semantics() {
    let data = [0b1010_0000];
    let mut br = BitReader::new(&data);
    assert!(br.more_rbsp_data());
    assert_eq!(br.read_ue().unwrap(), 0);
    assert!(br.more_rbsp_data());
    assert_eq!(br.read_ue().unwrap(), 1);
    assert!(!br.more_rbsp_data());
}

#[test]
fn more_rbsp_data_at_stop_bit() {
    let data = [0b1000_0000];
    let mut br = BitReader::new(&data);
    assert!(!br.more_rbsp_data());
    br.read_bit().unwrap();
    assert!(!br.more_rbsp_data());
}

#[test]
fn more_rbsp_data_multibyte() {
    let data = [0b1010_1010, 0b1000_0000];
    let mut br = BitReader::new(&data);
    assert!(br.more_rbsp_data());
    br.read_bits(8).unwrap();
    assert!(!br.more_rbsp_data());
}

#[test]
fn reader_failure_messages() {
    let data = [0xFFu8];
    let mut br = BitReader::new(&data);
    assert_eq!(br.read_bits(33).unwrap_err(), "单次最多读 32 位，收到 33");
    br.read_bits(8).unwrap();
    assert_eq!(br.read_bit().unwrap_err(), "比特流越界: 位置 8 超出总长 8");
    let mut br = BitReader::new(&data);
    br.read_bits(4).unwrap();
    assert_eq!(br.read_bits(5).unwrap_err(), "比特流越界: 位置 8 超出总长 8");

    let zeros = [0u8; 5];
    let mut br = BitReader::new(&zeros);
    assert_eq!(br.read_ue().unwrap_err(), "ue(v) 前导零超过 31，疑似损坏码流");
    let mut br = BitReader::new(&zeros[..2]);
    assert_eq!(br.read_se().unwrap_err(), "比特流越界: 位置 16 超出总长 16");
}

#[test]
fn sps_failure_carries_reader_message() {
    // profile_idc, flags and level fit; seq_parameter_set_id runs off the end.
    let body = [0x42u8, 0x00, 0x1E, 0x00];
    let e = parse_sps(&body).unwrap_err();
    assert_eq!(e, "比特流越界: 位置 32 超出总长 32");
}

#[test]
fn se_covers_every_code_number() {
    // ue code number 2^31: 31 zeros, a one, then 30 zeros and a one.
    let data = [0u8, 0, 0, 1, 0, 0, 0, 2];
    assert_eq!(BitReader::new(&data).read_se().unwrap(), -1073741824);
    // 2^31 - 1 maps to 2^30.
    let data = [0u8, 0, 0, 1, 0, 0, 0, 0];
    assert_eq!(BitReader::new(&data).read_se().unwrap(), 1073741824);
    // The largest code number, 2^32 - 2, maps to -(2^31 - 1).
    let data = [0u8, 0, 0, 1, 0xFF, 0xFF, 0xFF, 0xFE];
    assert_eq!(BitReader::new(&data).read_se().unwrap(), -2147483647);
    // 2^32 - 3 maps to 2^31 - 1.
    let data = [0u8, 0, 0, 1, 0xFF, 0xFF, 0xFF, 0xFC];
    assert_eq!(BitReader::new(&data).read_se().unwrap(), 2147483647);
}

#[test]
fn failed_reads_leave_the_position() {
    let data = [0xF0u8];
    let mut br = BitReader::new(&data);
    br.read_bits(3).unwrap();
    assert!(br.read_bits(40).is_err());
    assert_eq!(br.bit_pos(), 3);
    assert!(br.read_bits(9).is_err());
    assert_eq!(br.bit_pos(), 8);
    let zeros = [0u8; 5];
    let mut br = BitReader::new(&zeros);
    assert!(br.read_ue().is_err());
    assert_eq!(br.bit_pos(), 32);
}

// ---------- stream analysis ----------

#[test]
fn stream_scan_and_stats() {
    let data = build_test_stream(30);
    let nals = scan_annexb(&data);
    let r = parse_stream_bytes(&data, "annexb", &nals);
    assert_eq!(r.stats.nalu_count, 6);
    assert_eq!(r.stats.idr_count, 1);
    assert_eq!(r.stats.resolution.as_deref(), Some("320x240"));
    assert!(r.stats.profile.as_deref().unwrap_or("").contains("Baseline"));
    assert_eq!(r.stats.source_format, "annexb");
    let sps_count = r.stats.counts.iter().find(|(k, _)| k.starts_with("SPS")).map(|(_, v)| *v);
    assert_eq!(sps_count, Some(1));
}

#[test]
fn sps_detail_fields() {
    let data = build_test_stream(30);
    let nals = scan_annexb(&data);
    let d = nalu_detail_bytes(&data, &nals, 1).expect("SPS 详情失败");
    assert_eq!(d.type_label, "SPS");
    let all = all_fields(&d.groups);
    let prof = all.iter().find(|f| f.name == "profile_idc").expect("缺 profile_idc");
    assert!(prof.value.contains("Baseline"), "profile 值: {}", prof.value);
    let res = all.iter().find(|f| f.name == "分辨率(计算)").expect("缺分辨率");
    assert_eq!(res.value, "320x240");
    let c1 = all.iter().find(|f| f.name == "constraint_set1_flag").expect("缺约束位");
    assert_eq!(c1.value, "1");
    assert!(d.warnings.is_empty(), "SPS 不应有警告: {:?}", d.warnings);
}

#[test]
fn slice_detail_with_context() {
    let data = build_test_stream(30);
    let nals = scan_annexb(&data);
    let d = nalu_detail_bytes(&data, &nals, 3).expect("切片详情失败");
    assert_eq!(d.type_label, "IDR切片");
    let all = all_fields(&d.groups);
    let st = all.iter().find(|f| f.name == "slice_type").expect("缺 slice_type");
    assert!(st.value.starts_with("7 (I"));
    let fn_ = all.iter().find(|f| f.name == "frame_num").expect("缺 frame_num");
    assert_eq!(fn_.value, "0");
    let idr = all.iter().find(|f| f.name == "idr_pic_id").expect("缺 idr_pic_id");
    assert_eq!(idr.value, "0");
    assert!(d.warnings.is_empty(), "切片不应有警告: {:?}", d.warnings);

    let d2 = nalu_detail_bytes(&data, &nals, 4).expect("P 切片详情失败");
    let all2 = all_fields(&d2.groups);
    let fn2 = all2.iter().find(|f| f.name == "frame_num").expect("缺 frame_num");
    assert_eq!(fn2.value, "1");
}

#[test]
fn pps_detail() {
    let data = build_test_stream(30);
    let nals = scan_annexb(&data);
    let d = nalu_detail_bytes(&data, &nals, 2).expect("PPS 详情失败");
    let all = all_fields(&d.groups);
    let ent = all.iter().find(|f| f.name == "entropy_coding_mode_flag").expect("缺熵编码");
    assert!(ent.value.contains("CAVLC"));
}

#[test]
fn compare_same_stream_no_diff() {
    let data = build_test_stream(30);
    let nals = scan_annexb(&data);
    let c = compare_sps_bytes(&data, &nals, &data, &nals).expect("对比失败");
    assert_eq!(c.diff_count, 0, "相同码流不应有差异");
}

#[test]
fn compare_different_level_finds_diff() {
    let a = build_test_stream(30);
    let b = build_test_stream(40);
    let (na, nb) = (scan_annexb(&a), scan_annexb(&b));
    let c = compare_sps_bytes(&a, &na, &b, &nb).expect("对比失败");
    assert!(c.diff_count > 0);
    let level_row = c.rows.iter().find(|r| r.name == "level_idc").expect("缺 level 行");
    assert!(!level_row.same);
    assert!(level_row.value_a.contains("3.0"));
    assert!(level_row.value_b.contains("4.0"));
}

#[test]
fn out_of_range_index_errors() {
    let data = build_test_stream(30);
    let nals = scan_annexb(&data);
    assert!(nalu_detail_bytes(&data, &nals, 999).is_err());
}

// ---------- NAL unit layer ----------

#[test]
fn scan_finds_all_nalus() {
    let mut data: Vec<u8> = vec![];
    data.extend_from_slice(&[0, 0, 0, 1, 0x09, 0x10]);
    data.extend_from_slice(&[0, 0, 1, 0x67, 0x42, 0xC0, 0x1E]);
    data.extend_from_slice(&[0, 0, 0, 1, 0x65, 0x88, 0x84, 0x00]);
    let nals = scan_annexb(&data);
    assert_eq!(nals.len(), 3);
    assert_eq!(nals[0].start_code_len, 4);
    assert_eq!(nals[0].nal_type, 9);
    assert_eq!(nals[1].start_code_len, 3);
    assert_eq!(nals[1].nal_type, 7);
    assert_eq!(nals[2].nal_type, 5);
    assert_eq!(nals[2].data_len, 3);
}

#[test]
fn trailing_zeros_are_trimmed() {
    let mut data: Vec<u8> = vec![0, 0, 1, 0x65, 0xAA, 0, 0, 0, 0, 0, 0, 0, 1, 0x68, 0xEB];
    data[9] = 0;
    let nals = scan_annexb(&data);
    assert_eq!(nals.len(), 2);
    assert_eq!(nals[0].data_len, 2);
}

#[test]
fn unescape_removes_emulation_bytes() {
    let ebsp = [0x00, 0x00, 0x03, 0x00, 0xAA, 0x00, 0x00, 0x03, 0x01, 0xBB];
    let rbsp = unescape_rbsp(&ebsp);
    assert_eq!(rbsp, vec![0x00, 0x00, 0x00, 0xAA, 0x00, 0x00, 0x01, 0xBB]);
}

#[test]
fn unescape_keeps_normal_data() {
    let ebsp = [0x12, 0x34, 0x56, 0x78];
    assert_eq!(unescape_rbsp(&ebsp), vec![0x12, 0x34, 0x56, 0x78]);
}

#[test]
fn format_detection() {
    assert!(is_annexb(&[0, 0, 0, 1, 0x67, 0x42]));
    assert!(is_annexb(&[0, 0, 1, 0x67, 0x42]));
    assert!(!is_annexb(b"\x00\x00\x00\x18ftypisom"));
    assert!(is_mp4(b"\x00\x00\x00\x18ftypisom"));
    assert!(!is_mp4(&[0, 0, 0, 1, 0x67, 0x42]));
}

// ---------- slice header ----------

#[test]
fn mmco_op3_two_params() {
    let sps_nalu = build_test_sps_nalu(30);
    let sps_parse = parse_sps(&sps_nalu[1..]).expect("SPS 解析失败");
    let sps = &sps_parse.sps;

    let mut w = BitWriter::new();
    w.ue(0);
    w.ue(5);
    w.ue(0);
    w.u(1, 4);
    w.u(0, 1);
    w.u(0, 1);
    w.u(1, 1);
    w.ue(3);
    w.ue(2);
    w.ue(1);
    w.ue(0);
    w.se(0);
    w.rbsp_trailing();
    let body = w.to_bytes();

    let parsed = parse_slice_header(&body, 2, false, Some(sps), None);
    assert!(parsed.warnings.is_empty(), "MMCO op=3 应完整解析: {:?}", parsed.warnings);
    let all = all_fields(&parsed.groups);
    let diff = all
        .iter()
        .find(|f| f.name == "difference_of_pic_nums_minus1")
        .expect("缺 difference_of_pic_nums_minus1");
    assert_eq!(diff.value, "2");
    let ltfi = all.iter().find(|f| f.name == "long_term_frame_idx").expect("缺 long_term_frame_idx");
    assert_eq!(ltfi.value, "1");
    let qp = all.iter().find(|f| f.name == "slice_qp_delta").expect("MMCO 之后应继续解析到 slice_qp_delta");
    assert_eq!(qp.value, "0");
}

// ---------- MP4 ----------

#[test]
fn mp4_parse_tree_and_tracks() {
    let sps = build_test_sps_nalu(30);
    let pps = build_test_pps_nalu();
    let data = build_test_mp4(&sps, &pps);
    let info = parse_mp4_bytes(&data).expect("解析失败");
    assert!(info.has_avc);
    assert_eq!(info.sps_count, Some(1));
    assert_eq!(info.pps_count, Some(1));
    assert_eq!(info.length_size, Some(4));
    assert_eq!(info.tracks.len(), 1);
    assert_eq!(info.tracks[0].handler, "vide");
    assert_eq!(info.tracks[0].format, "avc1");
    assert_eq!(info.tracks[0].timescale, 1000);
    assert_eq!(info.tracks[0].duration, 4000);
    let seconds = info.tracks[0].duration as f64 / info.tracks[0].timescale as f64;
    assert_eq!(seconds, 4.0);
    assert_eq!(info.tracks[0].width.map(|w| w as f64 / 65536.0), Some(320.0));
    assert_eq!(info.boxes.len(), 3);
    assert_eq!(info.boxes[0].btype, "ftyp");
    assert_eq!(info.boxes[2].btype, "mdat");
}

#[test]
fn mp4_extract_annexb() {
    let sps = build_test_sps_nalu(30);
    let pps = build_test_pps_nalu();
    let data = build_test_mp4(&sps, &pps);
    let (stream, count) = extract_annexb_bytes(&data).expect("提取失败");
    assert_eq!(count, 4);
    assert_eq!(&stream[0..4], &[0, 0, 0, 1]);
    assert_eq!(stream[4], 0x67);
    let nals = scan_annexb(&stream);
    assert_eq!(nals.len(), 10);
    for n in &nals {
        assert!(n.data_len >= 1);
    }
}

// ---------- further cases ----------

#[test]
fn stream_counts_most_frequent_first() {
    let data = build_test_stream(30);
    let nals = scan_annexb(&data);
    let r = parse_stream_bytes(&data, "annexb", &nals);
    let names: Vec<(&str, usize)> = r.stats.counts.iter().map(|(k, v)| (k.as_str(), *v)).collect();
    assert_eq!(names[0], ("非IDR切片 (P/B)", 2));
    assert_eq!(names.len(), 5);
    // equal counts come in lexicographic order of their names
    let ones: Vec<&str> = names[1..].iter().map(|(k, _)| *k).collect();
    let mut sorted = ones.clone();
    sorted.sort();
    assert_eq!(ones, sorted);
    assert_eq!(r.nalus[0].preview, "09 10");
    assert_eq!(r.nalus[0].type_label, "AUD 分界符");
    assert!(r.nalus[3].is_idr);
    assert!(!r.stats.truncated);
    assert_eq!(r.stats.level.as_deref(), Some("30 (3.0)"));
    assert_eq!(r.stats.total_size, data.len());
}

#[test]
fn stream_without_sps_has_no_profile() {
    let data = vec![0, 0, 0, 1, 0x09, 0x10, 0, 0, 1, 0x41, 0x9A];
    let nals = scan_annexb(&data);
    let r = parse_stream_bytes(&data, "mp4", &nals);
    assert!(r.stats.profile.is_none());
    assert!(r.stats.level.is_none());
    assert!(r.stats.resolution.is_none());
    assert_eq!(r.stats.source_format, "mp4");
}

#[test]
fn detail_index_error_text() {
    let data = build_test_stream(30);
    let nals = scan_annexb(&data);
    assert_eq!(nalu_detail_bytes(&data, &nals, 999).unwrap_err(), "NALU 序号 999 越界（共 6 个）");
}

#[test]
fn detail_offset_error_text() {
    let data = build_test_stream(30);
    let nals = scan_annexb(&data);
    let short = &data[..data.len() - 2];
    assert_eq!(nalu_detail_bytes(short, &nals, 5).unwrap_err(), "NALU 偏移越界");
}

#[test]
fn detail_of_access_unit_delimiter() {
    let data = build_test_stream(30);
    let nals = scan_annexb(&data);
    let d = nalu_detail_bytes(&data, &nals, 0).unwrap();
    assert_eq!(d.groups.len(), 2);
    assert_eq!(d.groups[0].title, "NALU 头");
    assert_eq!(d.groups[0].fields[1].value, "0（非参考图像）");
    assert_eq!(d.groups[1].title, "AUD 内容");
    assert_eq!(d.groups[1].fields[0].value, "0 (P 帧)");
    assert_eq!(d.groups[1].fields[0].bits.as_deref(), Some("bit 8 · 3位"));
    assert_eq!(d.rbsp_hex, "10");
}

#[test]
fn detail_of_short_and_unparsed_units() {
    let data = vec![0, 0, 1, 0x0C, 0, 0, 1, 0x6E, 0xFF, 0x80];
    let nals = scan_annexb(&data);
    let d = nalu_detail_bytes(&data, &nals, 0).unwrap();
    assert_eq!(d.warnings, vec!["NALU 数据不足 2 字节".to_string()]);
    assert_eq!(d.groups.len(), 1);
    assert_eq!(d.rbsp_hex, "");
    let e = nalu_detail_bytes(&data, &nals, 1).unwrap();
    assert_eq!(e.groups[1].title, "扩展类型");
    assert_eq!(e.groups[0].fields[1].value, "3（参考图像）");
}

#[test]
fn detail_of_filler_data() {
    let data = vec![0, 0, 1, 0x0C, 0xFF, 0xFF, 0xFF, 0x80];
    let nals = scan_annexb(&data);
    let d = nalu_detail_bytes(&data, &nals, 0).unwrap();
    assert_eq!(d.groups[1].note.as_deref(), Some("4 字节填充（FF 后接 0x00 序列）"));
}

#[test]
fn compare_without_sps_errors() {
    let data = vec![0, 0, 0, 1, 0x09, 0x10];
    let nals = scan_annexb(&data);
    let good = build_test_stream(30);
    let gn = scan_annexb(&good);
    let msg = "码流中未找到 SPS（不是 H.264 裸流，或参数集缺失）";
    assert_eq!(compare_sps_bytes(&data, &nals, &good, &gn).unwrap_err(), msg);
    assert_eq!(compare_sps_bytes(&good, &gn, &data, &nals).unwrap_err(), msg);
}

#[test]
fn compare_notes_and_identical_tables() {
    let a = build_test_stream(30);
    let na = scan_annexb(&a);
    let c = compare_sps_bytes(&a, &na, &a, &na).unwrap();
    assert!(c.note_a.starts_with("A: "));
    assert!(c.note_a.ends_with("/ 320x240 / POC类型2 / 参考帧1"));
    assert!(c.note_b.starts_with("B: "));
    assert!(c.rows.iter().all(|r| r.same));
    let sps = parse_sps(&build_test_sps_nalu(30)[1..]).unwrap();
    let same = compare_tables(&sps.groups, &sps.groups, &sps.sps, &sps.sps);
    assert_eq!(same.diff_count, 0);
    let empty = compare_tables(&sps.groups, &Vec::new(), &sps.sps, &sps.sps);
    assert_eq!(empty.diff_count, empty.rows.len());
    assert!(empty.rows.iter().all(|r| r.value_b == "（B 侧无此字段）"));
    let other = compare_tables(&Vec::new(), &sps.groups, &sps.sps, &sps.sps);
    assert!(other.rows.iter().all(|r| r.value_a == "（A 侧无此字段）"));
}

#[test]
fn repeated_field_names_match_by_occurrence() {
    let mut g = FieldGroup::new("PPS · 量化");
    g.push(Field::new("delta_scale[0]", "1".to_string(), None, ""));
    g.push(Field::new("delta_scale[0]", "2".to_string(), None, ""));
    let sps = parse_sps(&build_test_sps_nalu(30)[1..]).unwrap();
    let tables = vec![g];
    let same = compare_tables(&tables, &tables, &sps.sps, &sps.sps);
    assert_eq!(same.diff_count, 0);
    assert_eq!(same.rows.len(), 2);
    assert!(same.rows.iter().all(|r| r.same && r.value_a == r.value_b));

    let mut h = FieldGroup::new("PPS · 量化");
    h.push(Field::new("delta_scale[0]", "1".to_string(), None, ""));
    let fewer = vec![h];
    let c = compare_tables(&fewer, &tables, &sps.sps, &sps.sps);
    assert_eq!(c.diff_count, 1);
    assert_eq!(c.rows[1].value_a, "（A 侧无此字段）");
    assert_eq!(c.rows[1].value_b, "2");
    let c = compare_tables(&tables, &fewer, &sps.sps, &sps.sps);
    assert_eq!(c.diff_count, 1);
    assert!(c.rows[0].same);
    assert_eq!(c.rows[1].value_b, "（B 侧无此字段）");
}

#[test]
fn names_of_coded_values() {
    assert_eq!(nal_type_name(5), "IDR切片");
    assert_eq!(nal_type_name(13), "保留");
    assert_eq!(nal_type_name(40), "非法");
    assert_eq!(slice_type_name(7), "7 (I · 该图像全部切片)");
    assert_eq!(slice_type_name(2), "2 (I · 仅本切片)");
    assert_eq!(slice_type_name(0), "0 (P · 仅本切片)");
    assert_eq!(level_name(30), "30 (3.0)");
    assert_eq!(level_name(9), "9 (1b)");
    assert_eq!(level_name(11), "11 (1.1 / 1b)");
    assert_eq!(level_name(31), "31 (3.1)");
    assert!(profile_name(66).contains("Baseline"));
    assert_eq!(sei_type_name(5), "5 · 用户数据未注册 user_data_unregistered");
}

#[test]
fn start_codes_and_pps() {
    assert_eq!(find_start_code(&[9, 0, 0, 0, 1, 5], 0), Some((1, 4)));
    assert_eq!(find_start_code(&[0, 0, 1, 5], 0), Some((0, 3)));
    assert_eq!(find_start_code(&[0, 0, 2, 5], 0), None);
    let pps = build_test_pps_nalu();
    let p = parse_pps(&pps[1..], None).unwrap();
    assert_eq!(p.pps.pic_parameter_set_id, 0);
    assert!(!p.pps.entropy_coding_mode_flag);
    assert_eq!(p.groups.len(), 4);
    assert!(parse_pps(&[], None).is_err());
}

#[test]
fn sei_lists_payloads() {
    // one user_data_unregistered payload of 17 bytes, then trailing bits
    let mut body = vec![5u8, 17];
    body.extend_from_slice(&[0xAB; 16]);
    body.push(b'x');
    body.push(0x80);
    let (groups, warnings) = parse_sei(&body);
    assert!(warnings.is_empty());
    assert_eq!(groups[0].fields.len(), 1);
    assert_eq!(groups[0].fields[0].bits.as_deref(), Some("bit 16 · 17字节"));
    let (g2, w2) = parse_sei(&[5u8, 40, 1, 2]);
    assert_eq!(g2[0].fields.len(), 0);
    assert_eq!(w2.len(), 1);
    assert!(g2[0].note.is_some());
}

#[test]
fn base64_text() {
    assert_eq!(b64(b""), "");
    assert_eq!(b64(b"M"), "TQ==");
    assert_eq!(b64(b"Ma"), "TWE=");
    assert_eq!(b64(b"Man"), "TWFu");
    assert_eq!(b64(&[0xFF, 0xEF, 0xFE, 0x00]), "/+/+AA==");
    for n in 0..20usize {
        let v = vec![7u8; n];
        assert_eq!(b64(&v).len(), 4 * ((n + 2) / 3));
    }
}

#[test]
fn hex_window_clamps() {
    let data: Vec<u8> = (0..10).collect();
    let w = hex_window(&data, 4, 3);
    assert_eq!((w.offset, w.bytes.clone(), w.file_size), (4, vec![4, 5, 6], 10));
    let w = hex_window(&data, 8, 100);
    assert_eq!((w.offset, w.bytes.clone()), (8, vec![8, 9]));
    let w = hex_window(&data, 50, 5);
    assert_eq!((w.offset, w.bytes.len()), (10, 0));
    let big = vec![1u8; 70000];
    assert_eq!(hex_window(&big, 0, usize::MAX).bytes.len(), 65536);
}

#[test]
fn entries_from_file_bytes() {
    let annexb = build_test_stream(30);
    let e = load_entry(annexb.clone()).unwrap();
    assert_eq!(e.source, "annexb");
    assert_eq!(e.nals.len(), 6);
    assert_eq!(e.data, annexb);
    let mp4 = build_test_mp4(&build_test_sps_nalu(30), &build_test_pps_nalu());
    let m = load_entry(mp4).unwrap();
    assert_eq!(m.source, "mp4");
    assert_eq!(m.nals.len(), 10);
    assert_eq!(
        load_entry(vec![1, 2, 3]).unwrap_err(),
        "无法识别的文件格式：既不是 MP4 容器，也不含 H.264 AnnexB 起始码"
    );
    let b = build_entry(vec![0, 0, 1, 0x65, 1], "annexb").unwrap();
    assert_eq!(b.nals.len(), 1);
}

#[test]
fn update_summary() {
    let u = update_info("abc1234", "abc1234def567890", "Fix parser\r\nmore text", "2024-05-01T10:00:00Z");
    assert!(!u.available);
    assert_eq!(u.latest_sha, "abc1234d");
    assert_eq!(u.message, "Fix parser");
    assert_eq!(u.date, "2024-05-01");
    let v = update_info("fff0000", "abc1234", "", "short");
    assert!(v.available);
    assert_eq!(v.latest_sha, "abc1234");
    assert_eq!(v.message, "");
    assert_eq!(v.date, "");
    assert!(!update_info("", "abc", "m", "").available);
}

#[test]
fn first_lines_and_order() {
    assert_eq!(first_line_or("ffmpeg version 6.0\nbuilt with gcc", "ffmpeg"), "ffmpeg version 6.0");
    assert_eq!(first_line_or("", "ffmpeg"), "ffmpeg");
    assert_eq!(first_line_or("abc\r", "x"), "abc\r");
    assert_eq!(first_line_or("\nabc", "x"), "");
    assert!(str_lt("AUD", "SPS"));
    assert!(!str_lt("SPS", "SPS"));
    assert!(str_lt("SP", "SPS"));
}

#[test]
fn mp4_tree_queries() {
    let sps = build_test_sps_nalu(30);
    let pps = build_test_pps_nalu();
    let data = build_test_mp4(&sps, &pps);
    let boxes = parse_boxes(&data, 0, data.len(), 0);
    let avcc = find_first(&boxes, "avcC").expect("avcC");
    assert_eq!(avcc.info[0], "Profile 66 / Compat 0xC0 / Level 30");
    assert_eq!(avcc.info[1], "NALU 长度前缀 4 字节");
    assert_eq!(avcc.info[2], "SPS 1 个 / PPS 1 个");
    let tkhd = find_first(&boxes, "tkhd").expect("tkhd");
    assert_eq!(tkhd.info, vec!["track_id 1".to_string(), "显示尺寸 320x240".to_string()]);
    let mvhd = find_first(&boxes, "mvhd").expect("mvhd");
    assert_eq!(mvhd.info, vec!["timescale 1000".to_string(), "duration 4000".to_string()]);
    let mut all = Vec::new();
    find_all(&boxes, "stsz", &mut all);
    assert_eq!(all.len(), 1);
    assert_eq!(all[0].info, vec!["变长样本 4 个".to_string()]);
    assert!(find_first(&boxes, "hvcC").is_none());
    let content = avtool::mp4::box_content(&data, avcc).expect("content");
    let cfg = parse_avcc_full(content, 0, content.len()).expect("avcC");
    assert_eq!(cfg.sps, vec![sps.clone()]);
    assert_eq!(cfg.pps, vec![pps.clone()]);
    assert_eq!(cfg.length_size, 4);
    assert!(parse_avcc_full(&content[..6], 0, 6).is_none());
    assert_eq!(hex_bytes(&[0x67, 0x0A]), "67 0A");
    let info = parse_mp4_bytes(&data).unwrap();
    assert_eq!(info.sps_hex, vec![hex_bytes(&sps)]);
    assert_eq!(info.avc_level.as_deref(), Some("30 (3.0)"));
}

#[test]
fn every_box_content_follows_its_header() {
    let data = build_test_mp4(&build_test_sps_nalu(30), &build_test_pps_nalu());
    let boxes = parse_boxes(&data, 0, data.len(), 0);
    let mut stack: Vec<&avtool::mp4::Mp4BoxNode> = boxes.iter().collect();
    let mut seen = 0;
    while let Some(b) = stack.pop() {
        let off = b.offset as usize;
        let content = avtool::mp4::box_content(&data, b).expect("content");
        assert_eq!(content, &data[off + 8..off + b.size as usize]);
        seen += 1;
        stack.extend(b.children.iter());
    }
    assert!(seen > 10);
}

#[test]
fn first_found_is_first_collected() {
    let data = build_test_mp4(&build_test_sps_nalu(30), &build_test_pps_nalu());
    let boxes = parse_boxes(&data, 0, data.len(), 0);
    for t in ["moov", "trak", "stsd", "avcC", "stsz", "hvcC"] {
        let mut all = Vec::new();
        find_all(&boxes, t, &mut all);
        match find_first(&boxes, t) {
            Some(f) => assert!(std::ptr::eq(f, all[0])),
            None => assert!(all.is_empty()),
        }
    }
}

#[test]
fn mp4_errors() {
    assert_eq!(parse_mp4_bytes(&[]).unwrap_err(), "未能解析出任何 MP4 盒子（文件损坏或不是 MP4）");
    let stream = build_test_stream(30);
    assert_eq!(
        extract_annexb_bytes(&stream).unwrap_err(),
        "未找到含 H.264 (avcC) 的视频轨道（该 MP4 可能不是 H.264 编码）"
    );
    let data = build_test_mp4(&build_test_sps_nalu(30), &build_test_pps_nalu());
    let cut = &data[..data.len() - 48];
    assert_eq!(extract_annexb_bytes(cut).unwrap_err(), "样本 #1 越界（size=12），文件可能损坏");
}

#[test]
fn sibling_boxes_follow_one_another() {
    let data = build_test_mp4(&build_test_sps_nalu(30), &build_test_pps_nalu());
    let boxes = parse_boxes(&data, 0, data.len(), 0);
    let mut pos = 0u64;
    for b in &boxes {
        assert_eq!(b.offset, pos);
        assert!(b.size >= 8);
        pos += b.size;
    }
    assert_eq!(pos as usize, data.len());
    let moov = find_first(&boxes, "moov").expect("moov");
    let mut inner = moov.offset + 8;
    for c in &moov.children {
        assert_eq!(c.offset, inner);
        inner += c.size;
    }
    assert!(inner <= moov.offset + moov.size);
}

#[test]
fn extracted_stream_starts_with_parameter_sets() {
    let sps = build_test_sps_nalu(30);
    let pps = build_test_pps_nalu();
    let data = build_test_mp4(&sps, &pps);
    let (stream, _) = extract_annexb_bytes(&data).expect("extract");
    let mut prefix = vec![0, 0, 0, 1];
    prefix.extend_from_slice(&sps);
    prefix.extend_from_slice(&[0, 0, 0, 1]);
    prefix.extend_from_slice(&pps);
    assert_eq!(&stream[..prefix.len()], &prefix[..]);
}

#[test]
fn pps_warnings_for_slice_groups_and_scaling_lists() {
    let fmo = parse_pps(&[0xC5], None).expect("FMO PPS");
    assert_eq!(fmo.warnings, vec!["该 PPS 使用多切片组（FMO），后续字段未解析（v1 不支持 FMO）".to_string()]);
    assert_eq!(fmo.groups.len(), 2);
    assert_eq!(fmo.groups[0].note.as_deref(), Some("检测到 FMO，解析提前结束"));
    let ng = &fmo.groups[0].fields[2];
    assert_eq!(ng.name, "num_slice_groups_minus1");
    assert_eq!(ng.value, "1");
    assert_eq!(ng.bits.as_deref(), Some("bit 12 · 3位"));
    assert_eq!(fmo.groups[1].fields[0].value, "0 (CAVLC)");
    let scaled = parse_pps(&[0xCE, 0x38, 0xE1, 0x10, 0x10], None).expect("PPS with scaling matrix");
    assert_eq!(scaled.warnings, vec!["PPS 含缩放列表，按 8 个列表（chroma≠3）假设解析".to_string()]);
    assert_eq!(scaled.pps.transform_8x8_mode_flag, Some(true));
    let g4 = &scaled.groups[3].fields;
    assert_eq!(g4.len(), 14);
    assert_eq!(g4[5].name, "pic_scaling_list_present_flag[0]");
    assert_eq!(g4[5].value, "1");
    assert_eq!(g4[6].name, "delta_scale[0]");
    assert_eq!(g4[6].value, "-8");
    assert_eq!(g4[6].bits.as_deref(), Some("bit 27 · 9位"));
    assert_eq!(g4[13].name, "pic_scaling_list_present_flag[7]");
    assert_eq!(scaled.groups[1].fields[4].value, "0 0 (无)");
    let plain = parse_pps(&build_test_pps_nalu()[1..], None).expect("plain PPS");
    assert!(plain.warnings.is_empty());
}

#[test]
fn sps_groups_and_rows() {
    let sps = build_test_sps_nalu(30);
    let p = parse_sps(&sps[1..]).expect("SPS");
    let titles: Vec<&str> = p.groups.iter().map(|g| g.title.as_str()).collect();
    assert_eq!(titles, vec!["SPS · 基础信息", "SPS · 编码结构", "SPS · 图像尺寸"]);
    let g1: Vec<&str> = p.groups[0].fields.iter().map(|f| f.name.as_str()).collect();
    assert_eq!(g1.len(), 10);
    assert_eq!(g1[9], "seq_parameter_set_id");
    assert_eq!(p.groups[0].fields[8].value, "30 (3.0)");
    assert_eq!(p.groups[0].fields[8].bits.as_deref(), Some("bit 24 · 8位"));
    let g3: Vec<&str> = p.groups[1].fields.iter().map(|f| f.name.as_str()).collect();
    assert_eq!(
        g3,
        vec![
            "log2_max_frame_num_minus4",
            "pic_order_cnt_type",
            "max_num_ref_frames",
            "gaps_in_frame_num_value_allowed_flag",
        ]
    );
    assert_eq!(p.groups[1].fields[0].desc.as_deref(), Some("frame_num 位宽 = 4"));
    let g4 = &p.groups[2].fields;
    assert_eq!(g4[0].name, "pic_width_in_mbs_minus1");
    assert_eq!(g4[0].desc.as_deref(), Some("= 20 宏块列"));
    let size = g4.iter().find(|f| f.name == "分辨率(计算)").expect("size row");
    assert_eq!(size.value, "320x240");
    assert!(size.bits.is_none());
    assert_eq!(g4.last().unwrap().name, "vui_parameters_present_flag");
}

#[test]
fn slice_weight_table_rows() {
    let sps = parse_sps(&build_test_sps_nalu(30)[1..]).expect("SPS").sps;
    let mut pps = parse_pps(&build_test_pps_nalu()[1..], None).expect("PPS").pps;
    pps.weighted_pred_flag = true;
    let mut w = BitWriter::new();
    w.ue(0); // first_mb_in_slice
    w.ue(5); // P
    w.ue(0); // pps id
    w.u(1, 4); // frame_num
    w.u(0, 1); // no override
    w.u(0, 1); // no list modification
    w.ue(0); // luma_log2_weight_denom
    w.ue(0); // chroma_log2_weight_denom
    w.u(1, 1); // luma weight present
    w.se(1);
    w.se(-1);
    w.u(0, 1); // no chroma weight
    w.u(0, 1); // no adaptive marking
    w.se(0); // slice_qp_delta
    w.rbsp_trailing();
    let parsed = parse_slice_header(&w.to_bytes(), 2, false, Some(&sps), Some(&pps));
    assert!(parsed.warnings.is_empty(), "{:?}", parsed.warnings);
    let g3: Vec<(&str, &str)> = parsed.groups[2].fields.iter().map(|f| (f.name.as_str(), f.value.as_str())).collect();
    assert_eq!(
        g3,
        vec![
            ("num_ref_idx_active_override_flag", "0"),
            ("ref_pic_list_modification_flag_l0", "0"),
            ("pred_weight_table[l0].luma_log2_weight_denom", "0"),
            ("pred_weight_table[l0].chroma_log2_weight_denom", "0"),
            ("pred_weight_table[l0].luma_weight_l0_flag[0]", "1"),
            ("pred_weight_table[l0].luma[0]", "delta=1, offset=-1"),
            ("pred_weight_table[l0].chroma_flag[0]", "0"),
            ("adaptive_ref_pic_marking_mode_flag", "0"),
        ]
    );
    assert_eq!(parsed.groups[0].fields[3].name, "frame_num");
    assert_eq!(parsed.groups[0].fields[3].bits.as_deref(), Some("bit 15 · 4位"));
    assert_eq!(parsed.groups[3].fields[0].name, "slice_qp_delta");
}

#[test]
fn slice_cut_short_keeps_rows_and_warns() {
    let sps = parse_sps(&build_test_sps_nalu(30)[1..]).expect("SPS").sps;
    let mut w = BitWriter::new();
    w.ue(0);
    w.ue(5);
    w.ue(0);
    let parsed = parse_slice_header(&w.to_bytes(), 2, false, Some(&sps), None);
    assert_eq!(parsed.groups[0].fields.len(), 3);
    assert_eq!(parsed.info.slice_type, 0);
    assert_eq!(parsed.warnings.len(), 1);
    assert!(parsed.warnings[0].starts_with("解析中断："), "{:?}", parsed.warnings);
    let no_sps = parse_slice_header(&w.to_bytes(), 2, false, None, None);
    assert_eq!(
        no_sps.warnings,
        vec!["上下文缺少 SPS，frame_num 及之后的字段未解析（可能 SPS 不在本 NALU 之前）".to_string()]
    );
}

#[test]
fn sei_stops_with_its_reason() {
    let (g, w) = parse_sei(&[0x05, 0x10, 0x01, 0x80]);
    assert_eq!(w, vec!["SEI 载荷 5 声明 16 字节，超出剩余数据，解析停止".to_string()]);
    assert_eq!(g[0].note.as_deref(), Some("未解析出任何 SEI 载荷"));
    let (_, w) = parse_sei(&[0xFF]);
    assert_eq!(w, vec!["SEI 编码字节不完整".to_string()]);
}
