use std::sync::Arc;

use avtool::cache::EntryCache;
use avtool::commands::{cache_key_text, check_file_size, load_entry};
use avtool::ffmpeg::{failure_text, frame_failure_text, frame_select, plays_in_browser, preview_file_name, detect_env, keep_error_line, probe_summary, progress_line, scan_check_line, transcode_result, ProbeStream, ProgressState};

#[test]
fn check_line_counts_frames_and_keeps_errors() {
    let mut errors: Vec<String> = Vec::new();
    let f = scan_check_line(
        "frame=120 fps=30\rframe=240 q=1\r [h264 @ 0x1] error while decoding MB 3 4 \n",
        0,
        &mut errors,
    );
    assert_eq!(f, 240);
    assert_eq!(errors, vec!["[h264 @ 0x1] error while decoding MB 3 4".to_string()]);
}

#[test]
fn check_line_keeps_the_largest_frame_count() {
    let mut errors: Vec<String> = Vec::new();
    assert_eq!(scan_check_line("frame=10", 500, &mut errors), 500);
    assert_eq!(scan_check_line("frame=777\r\r  \r", 500, &mut errors), 777);
    // no digits right after the prefix: nothing is counted, nothing is kept
    assert_eq!(scan_check_line("frame=  12 fps=1", 3, &mut errors), 3);
    assert!(errors.is_empty());
}

#[test]
fn check_line_caps_the_error_list() {
    let mut errors: Vec<String> = (0..200).map(|i| format!("e{i}")).collect();
    assert_eq!(scan_check_line("one more error", 0, &mut errors), 0);
    assert_eq!(errors.len(), 200);
    assert_eq!(errors[199], "e199");
    let mut few: Vec<String> = vec!["a".to_string()];
    scan_check_line("b\rc", 0, &mut few);
    assert_eq!(few, vec!["a".to_string(), "b".to_string(), "c".to_string()]);
}

#[test]
fn error_buffer_keeps_last_200_lines() {
    let mut buf: Vec<String> = Vec::new();
    for i in 0..201 {
        keep_error_line(&mut buf, format!("line {i}"));
    }
    assert_eq!(buf.len(), 200);
    assert_eq!(buf[0], "line 1");
    assert_eq!(buf[199], "line 200");
}

#[test]
fn transcode_outcome_texts() {
    let tail: Vec<String> = (1..=7).map(|i| format!("err {i}")).collect();
    let r = transcode_result(false, 1, false, &tail);
    assert!(!r.success);
    assert_eq!(r.code, 1);
    assert_eq!(r.error_tail, "err 3\nerr 4\nerr 5\nerr 6\nerr 7");
    let short = vec!["x".to_string(), "y".to_string()];
    assert_eq!(transcode_result(true, 0, false, &short).error_tail, "x\ny");
    assert_eq!(transcode_result(true, 0, false, &Vec::new()).error_tail, "");
    let c = transcode_result(false, -1, true, &tail);
    assert_eq!(c.error_tail, "已取消");
    assert_eq!(c.code, -1);
}

#[test]
fn progress_blocks() {
    let mut st = ProgressState::new();
    assert!(!progress_line(&mut st, "frame=10"));
    assert!(!progress_line(&mut st, " out_time_us = 2000000 "));
    assert!(!progress_line(&mut st, "speed=1.5x"));
    assert!(!progress_line(&mut st, "total_size=abc"));
    assert!(!progress_line(&mut st, "no pair here"));
    assert_eq!(st.kv.len(), 4);
    assert!(progress_line(&mut st, "progress=continue"));
    assert_eq!(st.frame, 10);
    assert_eq!(st.out_time_us, 2_000_000);
    assert_eq!(st.speed, "1.5x");
    assert_eq!(st.total_size, 0);
    assert!(st.kv.is_empty());
    // a block with no values keeps the numbers and empties the speed
    assert!(progress_line(&mut st, "progress=end"));
    assert_eq!(st.frame, 10);
    assert_eq!(st.out_time_us, 2_000_000);
    assert_eq!(st.speed, "");
}

#[test]
fn environment_from_version_text() {
    let e = detect_env(Some("ffmpeg version 6.0 Copyright\nbuilt with gcc\n"), true);
    assert!(e.available);
    assert!(e.ffprobe);
    assert_eq!(e.version, "ffmpeg version 6.0 Copyright");
    let e = detect_env(Some(""), false);
    assert!(e.available);
    assert!(!e.ffprobe);
    assert_eq!(e.version, "ffmpeg");
    let e = detect_env(None, true);
    assert!(!e.available);
    assert!(!e.ffprobe);
    assert_eq!(e.version, "");
}

fn entry(tag: u8) -> Arc<avtool::commands::StreamEntry> {
    Arc::new(load_entry(vec![0, 0, 0, 1, 0x09, tag]).expect("annex B"))
}

#[test]
fn cache_reads_back_what_was_put() {
    let mut cache = EntryCache::new();
    assert!(cache.get("a").is_none());
    let a = entry(0x10);
    cache.put("a".to_string(), Arc::clone(&a));
    let got = cache.get("a").expect("cached");
    assert!(Arc::ptr_eq(&got, &a));
    assert!(cache.get("b").is_none());
    let a2 = entry(0x30);
    cache.put("a".to_string(), Arc::clone(&a2));
    assert!(Arc::ptr_eq(&cache.get("a").unwrap(), &a2));
    assert_eq!(cache.get("a").unwrap().data, vec![0, 0, 0, 1, 0x09, 0x30]);
}

#[test]
fn cache_empties_when_over_eight_entries() {
    let mut cache = EntryCache::new();
    for i in 0..9 {
        cache.put(format!("k{i}"), entry(i));
    }
    for i in 0..9 {
        assert!(cache.get(&format!("k{i}")).is_some());
    }
    cache.put("k9".to_string(), entry(9));
    assert!(cache.get("k9").is_some());
    for i in 0..9 {
        assert!(cache.get(&format!("k{i}")).is_none());
    }
}

fn stream(kind: &str, codec: Option<&str>, frames: Option<&str>) -> ProbeStream {
    ProbeStream {
        codec_name: codec.map(|c| c.to_string()),
        codec_type: Some(kind.to_string()),
        width: Some(1920),
        height: None,
        pix_fmt: None,
        nb_frames: frames.map(|f| f.to_string()),
    }
}

#[test]
fn probe_takes_the_first_video_stream() {
    let streams = vec![
        stream("audio", Some("aac"), None),
        stream("video", Some("h264"), Some("+250")),
        stream("video", Some("hevc"), Some("9")),
    ];
    let p = probe_summary(&streams, &Some("mov,mp4".to_string())).expect("video");
    assert_eq!(p.video, 1);
    assert_eq!(p.codec, "h264");
    assert_eq!(p.width, 1920);
    assert_eq!(p.height, 0);
    assert_eq!(p.pix_fmt, "?");
    assert_eq!(p.frame_count, Some(250));
    assert_eq!(p.format_name, "mov,mp4");
    assert!(p.has_audio);
    let q = probe_summary(&vec![stream("video", None, Some("N/A"))], &None).expect("video");
    assert_eq!(q.codec, "?");
    assert_eq!(q.frame_count, None);
    assert_eq!(q.format_name, "?");
    assert!(!q.has_audio);
}

#[test]
fn probe_without_video_fails() {
    let streams = vec![stream("audio", Some("aac"), None)];
    assert_eq!(probe_summary(&streams, &None).unwrap_err(), "文件中没有视频轨道");
    assert_eq!(probe_summary(&Vec::new(), &None).unwrap_err(), "文件中没有视频轨道");
}

#[test]
fn file_size_limit_and_cache_keys() {
    assert!(check_file_size(2 * 1024 * 1024 * 1024).is_ok());
    assert_eq!(
        check_file_size(3 * 1024 * 1024 * 1024 + 5).unwrap_err(),
        "文件过大（3072 MB），上限 2048 MB"
    );
    assert_eq!(cache_key_text("/tmp/a.264", 1700000000, 42), "/tmp/a.264|1700000000|42");
}

#[test]
fn tool_failure_texts() {
    assert_eq!(failure_text("ffprobe 失败: ", "a\nno such file\n"), "ffprobe 失败: no such file");
    assert_eq!(failure_text("重封装失败: ", ""), "重封装失败: ");
    assert_eq!(failure_text("x: ", "one\r\n"), "x: one");
    assert_eq!(frame_failure_text(7, ""), "解码帧 #7 失败: 无输出");
    assert_eq!(frame_failure_text(7, "bad\nworse"), "解码帧 #7 失败: worse");
    assert_eq!(frame_select(12), "select=eq(n\\,12)");
}

#[test]
fn preview_naming() {
    assert!(plays_in_browser("mov,mp4,m4a,3gp,3g2,mj2"));
    assert!(!plays_in_browser("h264"));
    assert!(!plays_in_browser("mo"));
    let expected = ((10usize * 2654435761) as u32) ^ 3;
    assert_eq!(preview_file_name(10, 3), format!("avtool_preview_{expected:08x}.mp4"));
    assert_eq!(preview_file_name(0, 0xab), "avtool_preview_000000ab.mp4");
    assert_eq!(preview_file_name(usize::MAX, 1), "avtool_preview_00000001.mp4");
}
