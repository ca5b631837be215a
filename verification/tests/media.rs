use automosaic::media::{
    auto_bitrate, decode_chain_for, decode_chain_on, decode_cmd, decode_cmd_mjpeg, drain_null_cmd, encode_cmd,
    encoder_chain_for, encoder_chain_on, gpu_vendor, has_encoder, jpeg_to_nv12, list_hwaccels, nv12_to_rgba,
    nv12_to_rgba_scaled, parse_pci_vendor_id, rgb_to_nv12, roots_from, tool_candidates, tool_path, vaapi_render_device,
    vendor_from_ids, CardFile, EncodeOptions, JpegFrameScanner, Platform, ProbeError,
};
use automosaic::probe::{dims_in, display_size, meta_from_ffmpeg_stderr, number_before, tail_of, ProbeText};

fn chars(s: &str) -> Vec<char> {
    s.chars().collect()
}

fn turn_of(m: &ProbeText) -> f32 {
    m.rotation.as_deref().and_then(|t| t.parse().ok()).unwrap_or(0.0)
}

fn shown(m: &ProbeText) -> (u32, u32) {
    display_size(m.width, m.height, turn_of(m).round() as i64)
}

fn seconds(m: &ProbeText) -> Option<f64> {
    m.duration.as_ref().map(|d| {
        let n = |s: &str| s.parse::<f64>().unwrap();
        n(&d.hours) * 3600.0 + n(&d.minutes) * 60.0 + n(&d.seconds)
    })
}

fn frames(m: &ProbeText) -> Option<u64> {
    seconds(m).map(|s| (s * m.fps.parse::<f64>().unwrap()).round() as u64)
}

#[test]
fn roots_reach_repo_root_from_app_bundle_layout() {
    let exe = "/repo/app/build/prod/Debug/App.app/Contents/MacOS/App";
    let roots = roots_from(Platform::Unix, Some(exe), Some("/"));
    assert!(roots.iter().any(|r| r.ends_with("/repo")), "{roots:?}");
    assert!(roots.iter().any(|r| r.ends_with("Contents/MacOS")));
}

#[test]
fn roots_include_cwd_parents() {
    let roots = roots_from(Platform::Unix, None, Some("/repo/app"));
    assert!(roots.iter().any(|r| r.ends_with("/repo/app")));
    assert!(roots.iter().any(|r| r.ends_with("/repo")));
}

#[test]
fn roots_dedup() {
    let roots = roots_from(Platform::Unix, None, None);
    assert!(roots.is_empty());
}

const MP4_HEVC_STDERR: &str = "Input #0, mov,mp4,m4a,3gp,3g2,mj2, from 'in.mp4':\n  Duration: 00:00:05.07, start: 0.000000, bitrate: 1089 kb/s\n  Stream #0:0[0x1](und): Video: hevc (Main 10) (hvc1 / 0x31763763), yuv420p10le(pc), 1920x1080, 1088 kb/s, 15 fps, 15 tbr, 16k tbn (default)\n  Stream #0:1[0x2](und): Audio: aac (LC) (mp4a / 0x6D703461), 44100 Hz, stereo, fltp, 61 kb/s (default)\nAt least one output file must be specified\n";

#[test]
fn parses_ffmpeg_stderr_mp4() {
    let m = meta_from_ffmpeg_stderr(MP4_HEVC_STDERR, "in.mp4", Some(1)).unwrap();
    assert_eq!((m.width, m.height), (1920, 1080));
    assert_eq!(m.fps.parse::<f64>().unwrap(), 15.0);
    assert_eq!(m.codec, "hevc");
    assert_eq!(m.pix_fmt.as_deref(), Some("yuv420p10le"));
    assert!((seconds(&m).unwrap() - 5.07).abs() < 0.01);
    assert_eq!(frames(&m), Some(76));
    assert!(m.has_audio);
}

#[test]
fn parses_tbr_only_and_no_audio() {
    let s = "Input #0, matroska,webm, from 'in.mkv':\n  Duration: 00:00:10.00, start: 0.000000\n  Stream #0:0: Video: h264 (High), yuv420p(progressive), 3840x2160, 30 tbr, 1k tbn\n";
    let m = meta_from_ffmpeg_stderr(s, "in.mkv", Some(1)).unwrap();
    assert_eq!(m.fps.parse::<f64>().unwrap(), 30.0);
    assert!(!m.has_audio);
    assert_eq!(frames(&m), Some(300));
}

#[test]
fn rejects_stderr_without_video() {
    let s = "in.mp4: No such file or directory\n";
    assert!(meta_from_ffmpeg_stderr(s, "in.mp4", Some(1)).is_err());
    let e = meta_from_ffmpeg_stderr(s, "in.mp4", None).unwrap_err();
    assert_eq!(e.message(), format!("无法解析视频（退出码 -1）: {s}"));
}

#[test]
fn video_without_a_size_is_no_video() {
    let e = meta_from_ffmpeg_stderr("Stream #0:0: Video: hevc (0x31763763)\n", "a.mp4", Some(1)).unwrap_err();
    assert!(matches!(e, ProbeError::NoVideoStream(_)));
    assert_eq!(e.message(), "无视频流: a.mp4");
    let e = ProbeError::Spawn { bin: "ffmpeg".into(), source: "gone".into() };
    assert!(e.message().starts_with("执行 ffmpeg 失败: gone\n"));
}

#[test]
fn scaled_rgba_matches_full_at_same_size_and_shrinks() {
    let (w, h) = (64, 64);
    let mut nv12 = vec![128u8; w * h * 3 / 2];
    nv12[..w * h].fill(235);
    let full = nv12_to_rgba(&nv12, w, h);
    let same = nv12_to_rgba_scaled(&nv12, w, h, w, h);
    assert_eq!(full, same);
    let small = nv12_to_rgba_scaled(&nv12, w, h, 16, 16);
    assert_eq!(small.len(), 16 * 16 * 4);
    assert!(small.iter().step_by(4).all(|&r| r > 200));
}

#[test]
fn dims_and_number_parsers() {
    assert_eq!(dims_in(&chars("1920x1080, 1088 kb/s")), Some((1920, 1080)));
    assert_eq!(dims_in(&chars("(hvc1 / 0x31763763), yuv420p")), None);
    let n = |s: &str, u: &str| {
        number_before(&chars(s), &chars(u)).map(|t| t.into_iter().collect::<String>().parse::<f64>().unwrap())
    };
    assert_eq!(n(", 29.97 fps, 30 tbr", "fps"), Some(29.97));
    assert_eq!(n("30 tbr", "tbr"), Some(30.0));
    assert_eq!(n("no number tbr", "tbr"), None);
}

#[test]
fn decode_cmd_shapes_correctly() {
    let c = decode_cmd("in.mp4", Some("videotoolbox"));
    let joined = c.join(" ");
    assert!(joined.starts_with("-loglevel error -nostdin -hwaccel videotoolbox -i in.mp4"));
    assert!(joined.ends_with("-fps_mode passthrough -f rawvideo -pix_fmt nv12 -"));
}

#[test]
fn decode_cmd_mjpeg_shapes_correctly() {
    let c = decode_cmd_mjpeg("in.mp4", None);
    let joined = c.join(" ");
    assert!(joined.starts_with("-loglevel error -nostdin -i in.mp4"));
    assert!(joined.ends_with("-fps_mode passthrough -f mjpeg -q:v 2 -"));
}

#[test]
fn one_decoder_needs_to_be_told_the_format() {
    let joined = decode_cmd("a", Some("qsv")).join(" ");
    assert!(joined.contains("-hwaccel qsv -hwaccel_output_format nv12 -i a"));
}

#[test]
fn jpeg_scanner_frames_across_chunk_boundaries() {
    let mut sc = JpegFrameScanner::new();
    let mut out = vec![];
    sc.push(b"junk\x00\xff", &mut out);
    assert!(out.is_empty());
    let f1 = [0xFF, 0xD8, 1, 2, 3, 0xFF, 0xD9];
    sc.push(&f1[1..], &mut out);
    assert_eq!(out.len(), 1);
    assert_eq!(out[0], f1);
    let mut out2 = vec![];
    sc.push(&[0xFF, 0xD8, 9], &mut out2);
    assert!(out2.is_empty());
    sc.push(&[8, 0xFF, 0xD9, 0xFF, 0xD8, 7, 0xFF, 0xD9], &mut out2);
    assert_eq!(out2.len(), 2);
    assert_eq!(out2[0], [0xFF, 0xD8, 9, 8, 0xFF, 0xD9]);
    assert_eq!(out2[1], [0xFF, 0xD8, 7, 0xFF, 0xD9]);
}

#[test]
fn pictures_do_not_depend_on_the_pieces() {
    let stream = [7, 0xFF, 0xD8, 1, 0xFF, 0xD9, 0xFF, 0xFF, 0xD8, 2, 3, 0xFF, 0xD9, 0xFF];
    let mut whole = vec![];
    JpegFrameScanner::default().push(&stream, &mut whole);
    assert_eq!(whole.len(), 2);
    for cut in 0..=stream.len() {
        let mut sc = JpegFrameScanner::new();
        let mut out = vec![];
        sc.push(&stream[..cut], &mut out);
        sc.push(&stream[cut..], &mut out);
        assert_eq!(out, whole, "cut at {cut}");
    }
}

#[test]
fn rgb_to_nv12_roundtrip_within_tolerance() {
    let (w, h) = (8, 8);
    let white = vec![255u8; w * h * 3];
    let nv12 = rgb_to_nv12(&white, w, h);
    assert_eq!(nv12[0], 235);
    assert!(nv12[w * h..].iter().all(|&v| v == 128));
    let rgba = nv12_to_rgba(&nv12, w, h);
    assert!(rgba.chunks(4).all(|p| p[0] >= 253 && p[1] >= 253 && p[2] >= 253));
    let mut rgb = vec![0u8; w * h * 3];
    for y in 0..h {
        for x in 0..w {
            let i = (y * w + x) * 3;
            rgb[i] = (x * 5) as u8;
            rgb[i + 1] = (y * 5) as u8;
            rgb[i + 2] = (60 + (x + y) * 2) as u8;
        }
    }
    let nv12 = rgb_to_nv12(&rgb, w, h);
    assert_eq!(nv12.len(), w * h * 3 / 2);
    let rgba = nv12_to_rgba(&nv12, w, h);
    for i in 0..w * h {
        for c in 0..3 {
            let d = (rgba[i * 4 + c] as i32 - rgb[i * 3 + c] as i32).abs();
            assert!(d <= 6, "i={i} c={c} d={d}");
        }
    }
}

#[test]
fn colours_are_those_of_single_precision() {
    let pixel = |y: u8, u: u8, v: u8| {
        let (l, cu, cv) = ((y as f32 - 16.0) * 1.1644, u as f32 - 128.0, v as f32 - 128.0);
        [
            (l + 1.5960 * cv).clamp(0.0, 255.0) as u8,
            (l - 0.3917 * cu - 0.8130 * cv).clamp(0.0, 255.0) as u8,
            (l + 2.0172 * cu).clamp(0.0, 255.0) as u8,
            255,
        ]
    };
    for y in (0..256).step_by(5) {
        for u in (0..256).step_by(3) {
            for v in (0..256).step_by(7) {
                let nv12 = [y as u8, y as u8, y as u8, y as u8, u as u8, v as u8];
                assert_eq!(nv12_to_rgba(&nv12, 2, 2)[..4], pixel(y as u8, u as u8, v as u8));
            }
        }
    }
}

#[test]
fn brightness_and_differences_are_those_of_single_precision() {
    let mut seed = 1u32;
    let mut next = || {
        seed = seed.wrapping_mul(1664525).wrapping_add(1013904223);
        (seed >> 24) as u8
    };
    for _ in 0..20000 {
        let rgb: Vec<u8> = (0..12).map(|_| next()).collect();
        let got = rgb_to_nv12(&rgb, 2, 2);
        let (mut su, mut sv) = (0.0f32, 0.0f32);
        for p in 0..4 {
            let (r, g, b) = (rgb[3 * p] as f32, rgb[3 * p + 1] as f32, rgb[3 * p + 2] as f32);
            let y = (16.0 + 0.2568 * r + 0.5041 * g + 0.0979 * b).round().clamp(0.0, 255.0) as u8;
            assert_eq!(got[p], y);
            su += -0.1482 * r - 0.2910 * g + 0.4392 * b;
            sv += 0.4392 * r - 0.3678 * g - 0.0714 * b;
        }
        assert_eq!(got[4], (128.0 + su * 0.25).round().clamp(0.0, 255.0) as u8);
        assert_eq!(got[5], (128.0 + sv * 0.25).round().clamp(0.0, 255.0) as u8);
    }
}

#[test]
fn probe_parses_rotation_and_swaps_dims() {
    let stderr = "Input #0, mov,mp4, from 'in.mp4':\n  Duration: 00:00:05.00\n  Stream #0:0(und): Video: hevc (Main), yuv420p, 1920x1080, 15 fps\n  Stream #0:1(und): Audio: truehd (mlpa), 44100 Hz\n      Display Matrix: rotation of -90.00 degrees\n";
    let m = meta_from_ffmpeg_stderr(stderr, "in.mp4", Some(0)).unwrap();
    assert_eq!(shown(&m), (1080, 1920));
    assert!((turn_of(&m) + 90.0).abs() < 0.01);
    assert_eq!(m.audio_codecs, vec!["truehd".to_string()]);
}

#[test]
fn probe_no_rotation_keeps_dims() {
    let stderr = "Input #0, from 'in.mp4':\n  Stream #0:0(und): Video: h264, 1920x1080, 30 fps\n  Stream #0:1(und): Audio: aac, 44100 Hz\n";
    let m = meta_from_ffmpeg_stderr(stderr, "in.mp4", Some(0)).unwrap();
    assert_eq!(shown(&m), (1920, 1080));
    assert_eq!(turn_of(&m), 0.0);
    assert_eq!(m.audio_codecs, vec!["aac".to_string()]);
}

#[test]
fn parses_all_audio_codecs() {
    let s = "Input #0, mov,mp4, from 'in.mp4':\n  Duration: 00:00:05.00\n  Stream #0:0(und): Video: h264, 1920x1080, 30 fps\n  Stream #0:1(und): Audio: aac (LC), 44100 Hz\n  Stream #0:2(und): Audio: truehd (mlpa), 48000 Hz\n";
    let m = meta_from_ffmpeg_stderr(s, "in.mp4", Some(0)).unwrap();
    assert_eq!(m.audio_codecs, vec!["aac".to_string(), "truehd".to_string()]);
}

#[test]
fn pictures_lie_on_their_side_or_not() {
    assert_eq!(display_size(3, 2, 90), (2, 3));
    assert_eq!(display_size(3, 2, -270), (2, 3));
    assert_eq!(display_size(3, 2, 180), (3, 2));
    assert_eq!(display_size(3, 2, 45), (3, 2));
    assert_eq!(display_size(3, 2, 46), (2, 3));
}

#[test]
fn unlikely_rates_are_not_believed() {
    let rate = |r: &str| {
        let s = format!("Stream #0:0: Video: h264, 640x360, {r}\n");
        meta_from_ffmpeg_stderr(&s, "a", None).unwrap().fps
    };
    assert_eq!(rate("0 fps"), "30");
    assert_eq!(rate("1000 fps"), "30");
    assert_eq!(rate("999.5 fps"), "999.5");
    assert_eq!(rate("29.97 fps"), "29.97");
    assert_eq!(rate("nothing"), "30");
    for r in [
        "999.99999999999999999",
        "999.99999999999994315658113919198513031005859375",
        "999.99999999999994315658113919198513031005859374",
        "999.9999999999999",
        "0.5",
        "007.25",
    ] {
        let v: f64 = r.parse().unwrap();
        assert_eq!(rate(&format!("{r} fps")), if v > 0.0 && v < 1000.0 { r } else { "30" });
    }
    for zeros in [322, 323, 324] {
        for d in ["2", "24703282292062327208", "24703282292062327209", "3", "5"] {
            let r = format!("0.{}{d}", "0".repeat(zeros));
            assert_eq!(rate(&format!("{r} fps")), if r.parse::<f64>().unwrap() > 0.0 { &r } else { "30" });
        }
    }
}

#[test]
fn the_end_of_a_text() {
    assert_eq!(tail_of("abcdef", 3), "def");
    assert_eq!(tail_of("ab", 3), "ab");
}

fn encode(encoder: &str, audio: Option<&str>, transcode: bool, w: u32, h: u32) -> EncodeOptions {
    EncodeOptions {
        width: w,
        height: h,
        fps: format!("{:.6}", 30.0),
        encoder: encoder.into(),
        audio_from: audio.map(String::from),
        bitrate: "6M".into(),
        audio_transcode: transcode,
    }
}

#[test]
fn encode_cmd_audio_transcode_uses_aac() {
    let o = encode("libx264", Some("in.mp4"), true, 640, 360);
    let joined = encode_cmd(Platform::Unix, "out.mp4", &o, "").join(" ");
    assert!(joined.contains("-map 1:a? -c:a aac -b:a 192k"));
    assert!(!joined.contains("-c:a copy"));
}

#[test]
fn encode_cmd_shapes_correctly() {
    let mut o = encode("h264_videotoolbox", Some("in.mp4"), false, 1280, 720);
    o.fps = format!("{:.6}", 29.970029);
    let joined = encode_cmd(Platform::Unix, "out.mp4", &o, "").join(" ");
    assert!(joined.contains("-pixel_format nv12 -video_size 1280x720"));
    assert!(joined.contains("-framerate 29.970029 -i -"));
    assert!(joined.contains("-c:v h264_videotoolbox"));
    assert!(joined.contains("-realtime 1"));
    assert!(joined.contains("-map 1:a? -c:a copy"));
    assert!(joined.contains("-map 1:s? -c:s mov_text"));
    assert!(joined.contains("-map_chapters 1 -map_metadata 1"));
    assert!(joined.ends_with("-movflags +faststart out.mp4"));
}

#[test]
fn encode_cmd_qsv_device_prefix_order() {
    let o = encode("h264_qsv", None, false, 640, 360);
    let c = encode_cmd(Platform::Unix, "out.mp4", &o, "");
    assert_eq!(&c[..4], &["-init_hw_device", "qsv=hw", "-filter_hw_device", "hw"]);
    assert!(c.windows(2).any(|w| w == ["-vf", "format=nv12,hwupload"]));
    assert!(c.contains(&"-global_quality".to_string()));
}

#[test]
fn encode_cmd_amf_has_quality_params() {
    let o = encode("h264_amf", None, false, 1920, 1080);
    let joined = encode_cmd(Platform::Unix, "out.mp4", &o, "").join(" ");
    assert!(joined.contains("-quality balanced -b:v 6M"));
}

#[test]
fn encode_cmd_mkv_subs_copy_and_no_movflags() {
    let o = encode("libx264", Some("in.mkv"), false, 640, 360);
    let joined = encode_cmd(Platform::Unix, "out.mkv", &o, "").join(" ");
    assert!(joined.contains("-map 1:s? -c:s copy"));
    assert!(!joined.contains("movflags"));
    assert!(joined.ends_with("out.mkv"));
}

#[test]
fn encode_cmd_no_audio_source_maps_nothing_extra() {
    let o = encode("libx264", None, false, 640, 360);
    let joined = encode_cmd(Platform::Unix, "out.mp4", &o, "").join(" ");
    assert!(!joined.contains("-map 1:"));
    assert!(!joined.contains("map_chapters"));
}

#[test]
fn encode_cmd_nvenc_includes_zero_bitrate() {
    let o = encode("h264_nvenc", None, false, 640, 360);
    let joined = encode_cmd(Platform::Unix, "out.mp4", &o, "").join(" ");
    assert!(joined.contains("-rc vbr -cq 23 -b:v 0"));
    assert!(!joined.contains("-map 1:a"));
}

#[test]
fn the_device_of_the_graphics_card_comes_first() {
    let o = encode("h264_vaapi", None, false, 640, 360);
    let c = encode_cmd(Platform::Unix, "out.MOV", &o, "/dev/dri/renderD129");
    assert_eq!(&c[..2], &["-vaapi_device", "/dev/dri/renderD129"]);
    assert!(c.join(" ").ends_with("-movflags +faststart out.MOV"));
    assert_eq!(
        drain_null_cmd(&o).join(" "),
        "-y -loglevel error -f rawvideo -pixel_format nv12 -video_size 640x360 -framerate 30.000000 -i - -f null -"
    );
    let nodes: Vec<String> = ["card0", "renderD130", "renderD129"].map(String::from).to_vec();
    assert_eq!(vaapi_render_device(&nodes), "/dev/dri/renderD129");
    assert_eq!(vaapi_render_device(&vec![]), "/dev/dri/renderD128");
}

#[test]
fn parses_sysfs_vendor_string() {
    assert_eq!(parse_pci_vendor_id("0x1002\n"), Some(0x1002));
    assert_eq!(parse_pci_vendor_id("0x10de"), Some(0x10de));
    assert_eq!(parse_pci_vendor_id("0x8086\n"), Some(0x8086));
    assert_eq!(parse_pci_vendor_id("garbage"), None);
}

#[test]
fn vendor_numbers_have_to_fit() {
    assert_eq!(parse_pci_vendor_id("ffffffff"), Some(u32::MAX));
    assert_eq!(parse_pci_vendor_id("100000000"), None);
    assert_eq!(parse_pci_vendor_id("0x"), None);
    assert_eq!(parse_pci_vendor_id("0x0x1F"), Some(0x1f));
}

#[test]
fn vendor_from_pci_ids() {
    assert_eq!(vendor_from_ids(&[0x1002]), Some("amd"));
    assert_eq!(vendor_from_ids(&[0x10de, 0x10de]), Some("nvidia"));
    assert_eq!(vendor_from_ids(&[0x8086]), Some("intel"));
    assert_eq!(vendor_from_ids(&[]), None);
    assert_eq!(vendor_from_ids(&[0x10de, 0x1002]), None);
    assert_eq!(vendor_from_ids(&[0x1234, 0x5678]), None);
}

#[test]
fn vendor_of_the_machine() {
    let card = |n: &str, v: &str| CardFile { name: n.into(), vendor: v.into() };
    let cards = vec![card("card0", "0x10de\n"), card("card0-HDMI-A-1", "0x8086\n"), card("version", "0x1002")];
    assert_eq!(gpu_vendor(Platform::Unix, &cards, ""), Some("nvidia"));
    let several = vec![card("card0", "0x8086\n"), card("card1", "0x10de\n"), card("card2", "0x1002\n")];
    assert_eq!(gpu_vendor(Platform::Unix, &several, ""), Some("nvidia"));
    let two = vec![card("card0", "0x8086\n"), card("card1", "0x1002\n")];
    assert_eq!(gpu_vendor(Platform::Unix, &two, ""), Some("amd"));
    assert_eq!(gpu_vendor(Platform::Unix, &vec![card("card0", "0x1234")], ""), None);
    assert_eq!(gpu_vendor(Platform::Windows, &vec![], "AMD Radeon and Intel"), Some("amd"));
    assert_eq!(gpu_vendor(Platform::Windows, &vec![], "Intel(R) UHD 630"), Some("intel"));
    assert_eq!(gpu_vendor(Platform::MacOs, &vec![], ""), Some("apple"));
    assert_eq!(gpu_vendor(Platform::Other, &cards, "nvidia"), None);
}

#[test]
fn linux_chains_reorder_by_vendor() {
    let d = decode_chain_for(Some("nvidia"));
    assert_eq!(d.first(), Some(&Some("cuda")));
    let e = encoder_chain_for(Some("nvidia"));
    assert_eq!(e.first(), Some(&"h264_nvenc"));
    assert_eq!(decode_chain_for(Some("amd")).first(), Some(&Some("vaapi")));
    assert_eq!(encoder_chain_for(None).first(), Some(&"h264_vaapi"));
    let di = decode_chain_for(Some("intel"));
    assert!(di.contains(&Some("qsv")) && !di.contains(&Some("cuda")));
}

#[test]
fn chains_end_without_the_graphics_card() {
    for p in [Platform::MacOs, Platform::Windows, Platform::Unix, Platform::Other] {
        for v in [None, Some("nvidia"), Some("amd"), Some("intel")] {
            assert_eq!(decode_chain_on(p, v).last(), Some(&None));
            assert_eq!(encoder_chain_on(p, v).last(), Some(&"libx264"));
        }
    }
}

#[test]
fn auto_bitrate_scales_by_resolution_tier() {
    assert_eq!(auto_bitrate(1280, 720), "3M");
    assert_eq!(auto_bitrate(1920, 1080), "6M");
    assert_eq!(auto_bitrate(1088, 1920), "6M");
    assert_eq!(auto_bitrate(2560, 1440), "10M");
    assert_eq!(auto_bitrate(3840, 2160), "20M");
    assert_eq!(auto_bitrate(640, 360), "3M");
}

#[test]
fn lists_of_what_the_tool_can_do() {
    assert_eq!(list_hwaccels("Hardware acceleration methods:\nvdpau\n cuda \n\nvaapi\n"), ["vdpau", "cuda", "vaapi"]);
    assert!(list_hwaccels("").is_empty());
    let enc = " V....D libx264              H.264\n V....D h264_nvenc           NVENC\n";
    assert!(has_encoder(enc, "libx264"));
    assert!(!has_encoder(enc, "V....D"));
    assert!(!has_encoder(enc, "h264"));
}

#[test]
fn tools_are_looked_for_in_order() {
    let roots = vec!["/r".to_string()];
    let c = tool_candidates(Platform::Unix, "linux-x86_64", Some("/tools"), &roots, "ffmpeg");
    assert_eq!(c, ["/tools/ffmpeg", "/r/ffmpeg", "/r/bin/linux-x86_64/ffmpeg", "/r/Resources/ffmpeg", "ffmpeg"]);
    assert_eq!(tool_path(&c, &vec![false, false, true, true, false]), "/r/bin/linux-x86_64/ffmpeg");
    assert_eq!(tool_path(&c, &vec![false; 5]), "ffmpeg");
    let c = tool_candidates(Platform::Windows, "windows-x86_64", None, &vec![], "ffmpeg");
    assert_eq!(c, ["ffmpeg.exe"]);
}

fn grey_jpeg() -> Vec<u8> {
    let mut j = vec![0xFF, 0xD8];
    j.extend([0xFF, 0xDB, 0, 67, 0]);
    j.extend([1u8; 64]);
    j.extend([0xFF, 0xC0, 0, 17, 8, 0, 8, 0, 8, 3, 1, 0x11, 0, 2, 0x11, 0, 3, 0x11, 0]);
    for class in [0x00u8, 0x10] {
        j.extend([0xFF, 0xC4, 0, 20, class, 1]);
        j.extend([0u8; 15]);
        j.push(0);
    }
    j.extend([0xFF, 0xDA, 0, 12, 3, 1, 0, 2, 0, 3, 0, 0, 63, 0]);
    j.push(0b0000_0011);
    j.extend([0xFF, 0xD9]);
    j
}

#[test]
fn a_picture_becomes_a_frame() {
    let frame = jpeg_to_nv12(&grey_jpeg(), 8, 8).unwrap();
    assert_eq!(frame.len(), 96);
    assert!(frame[..64].iter().all(|&y| (125..=127).contains(&y)), "{frame:?}");
    assert!(frame[64..].iter().all(|&c| c == 128));
}

#[test]
fn pictures_that_are_no_frames() {
    let e = jpeg_to_nv12(&grey_jpeg(), 16, 8).unwrap_err();
    assert_eq!(e, "JPEG 帧 8×8 与视频 16×8 不符");
    let e = jpeg_to_nv12(&[1, 2, 3], 8, 8).unwrap_err();
    assert!(e.starts_with("JPEG 解码失败: "), "{e}");
}

/// A grey picture of another size.
fn sized_jpeg(w: u16, h: u16) -> Vec<u8> {
    let mut j = grey_jpeg();
    let at = j.windows(2).position(|b| b == [0xFF, 0xC0]).unwrap() + 5;
    j[at..at + 2].copy_from_slice(&h.to_be_bytes());
    j[at + 2..at + 4].copy_from_slice(&w.to_be_bytes());
    let end = j.len() - 3;
    j[end] = 0;
    j
}

#[test]
fn very_large_pictures() {
    let wide = jpeg_to_nv12(&sized_jpeg(65530, 8), 65530, 8).unwrap();
    assert_eq!(wide.len(), 65530 * 12);
    let tall = jpeg_to_nv12(&sized_jpeg(8, 65534), 8, 65534).unwrap();
    assert_eq!(tall.len(), 65534 * 12);
    assert_eq!(jpeg_to_nv12(&sized_jpeg(8, 65535), 8, 8).unwrap_err(), "JPEG 帧 8×65535 与视频 8×8 不符");
    // One component, in a scan of its own.
    let lone = |w: u16, h: u16, sampling: u8| {
        let mut j = sized_jpeg(w, h);
        let at = j.windows(2).position(|b| b == [0xFF, 0xC0]).unwrap();
        let size = [h.to_be_bytes(), w.to_be_bytes()].concat();
        let header = [&[0xFF, 0xC0, 0, 11, 8][..], &size, &[1, 1, sampling, 0]].concat();
        j.splice(at..at + 19, header);
        let at = j.windows(2).position(|b| b == [0xFF, 0xDA]).unwrap();
        j.splice(at..at + 14, [0xFF, 0xDA, 0, 8, 1, 1, 0, 0, 63, 0]);
        j
    };
    let grey = "期望 RGB24 输出，得到 L8";
    assert_eq!(jpeg_to_nv12(&lone(8, 8, 0x11), 8, 8).unwrap_err(), grey);
    assert_eq!(jpeg_to_nv12(&lone(65530, 8, 0x11), 65530, 8).unwrap_err(), grey);
    assert_eq!(jpeg_to_nv12(&lone(65528, 8, 0x31), 65528, 8).unwrap_err(), grey);
    assert_eq!(jpeg_to_nv12(&lone(8, 65530, 0x11), 8, 65530).unwrap_err(), "JPEG 帧 8×65530 过大");
    assert_eq!(jpeg_to_nv12(&lone(65530, 8, 0x31), 65530, 8).unwrap_err(), "JPEG 帧 65530×8 过大");
}

#[test]
fn scaled_pixels_are_picked() {
    let (w, h, dw, dh) = (6, 4, 4, 3);
    let f: Vec<u8> = (0..w * h * 3 / 2).map(|i| (i * 53 % 256) as u8).collect();
    let full = nv12_to_rgba(&f, w, h);
    let small = nv12_to_rgba_scaled(&f, w, h, dw, dh);
    for y in 0..dh {
        for x in 0..dw {
            let (k, l) = (4 * (y * dw + x), 4 * (y * h / dh * w + x * w / dw));
            assert_eq!(small[k..k + 4], full[l..l + 4]);
        }
    }
}

#[test]
fn flat_colours_come_back_within_two() {
    for i in 0..=16u32 {
        for j in 0..=16u32 {
            for k in 0..=16u32 {
                let c = [i, j, k].map(|v| (v * 16).min(255) as u8);
                let back = nv12_to_rgba(&rgb_to_nv12(&c.repeat(4), 2, 2), 2, 2);
                assert!(back.chunks(4).all(|p| (0..3).all(|n| p[n].abs_diff(c[n]) <= 2)), "{c:?} {back:?}");
            }
        }
    }
}
