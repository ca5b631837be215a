use automosaic::compose::{apply, MaskStyle};
use automosaic::maskstore::{
    frame_index, InstanceRecord, MaskMeta, MaskStore, MaskStoreError, Patch, PatchOp, PatchStore,
};
use automosaic::media::Platform;
use automosaic::rle::{rle_decode, rle_decode_any, rle_encode};
use automosaic::stages::render_frame;

#[test]
fn roundtrip_and_resume() {
    let store = MaskStore::new(Platform::Unix, "cache");
    assert_eq!(store.analyzed_frames(&vec![]), 0);
    let (w, h) = (64usize, 32usize);
    let mut mask = vec![0u8; w * h];
    for y in 4..10 {
        for x in 8..30 {
            mask[y * w + x] = 1;
        }
    }
    let none = MaskMeta { width: w as u32, height: h as u32, frames: 0 };
    let files: Vec<Vec<u8>> = [vec![0; w * h], mask.clone(), vec![1; w * h]]
        .iter()
        .enumerate()
        .map(|(i, m)| store.save_mask(i as u64, &none, m).0)
        .collect();
    let names: Vec<String> = (0..3u64).map(|i| format!("frame_{i:08}.mask")).collect();
    assert_eq!(store.frame_path(1), "cache/frame_00000001.mask");
    assert_eq!(store.analyzed_frames(&names), 3);
    let m = store.load_mask(1, Some(&files[1]), w, h).unwrap().unwrap();
    assert_eq!(m, mask);
    assert_eq!(m.len(), w * h);
    assert!(store.load_mask(9, None, w, h).unwrap().is_none());

    let meta = MaskMeta { width: w as u32, height: h as u32, frames: 3 };
    assert!(matches!(store.verify(true, Some(meta), 320, 240), Err(MaskStoreError::SizeMismatch { .. })));
    let back = store.verify(true, Some(meta), w as u32, h as u32).unwrap();
    assert_eq!(back.frames, 3);
}

#[test]
fn corrupt_file_detected() {
    let store = MaskStore::new(Platform::Unix, "cache");
    let full = store.save_mask(0, &MaskMeta { width: 3, height: 1, frames: 0 }, &vec![1, 0, 1]).0;
    let cut = &full[..full.len() - 2];
    assert!(matches!(store.load_mask(0, Some(cut), 2, 2), Err(MaskStoreError::Corrupt(0))));
}

#[test]
fn instances_roundtrip() {
    let store = MaskStore::new(Platform::Unix, "cache");
    let (w, h) = (32usize, 16usize);
    let mut m1 = vec![0u8; w * h];
    m1[100..140].fill(1);
    let bits = |b: [f32; 4]| b.map(f32::to_bits);
    let recs = vec![
        InstanceRecord {
            id: 7,
            kind: 0,
            score: 0.9f32.to_bits(),
            xyxy: bits([1.0, 2.0, 3.0, 4.0]),
            mask: m1.clone(),
        },
        InstanceRecord {
            id: 9,
            kind: 1,
            score: 0.5f32.to_bits(),
            xyxy: bits([5.0, 6.0, 7.0, 8.0]),
            mask: vec![1; w * h],
        },
    ];
    let file = store.save_instances(&recs);
    let back = store.load_instances(3, Some(&file), w, h).unwrap().unwrap();
    assert_eq!(back.len(), 2);
    assert_eq!(back[0].id, 7);
    assert_eq!(f32::from_bits(back[0].score), 0.9);
    assert_eq!(back[0].xyxy.map(f32::from_bits), [1.0, 2.0, 3.0, 4.0]);
    assert_eq!(back[0].mask, m1);
    assert_eq!(back[1].mask, vec![1; w * h]);
    assert!(store.load_instances(4, None, w, h).unwrap().is_none());
    assert_eq!(store.analyzed_frames(&vec!["frame_00000003.inst".to_string()]), 0);
}

#[test]
fn patches_roundtrip_and_apply() {
    let (w, h) = (16usize, 8usize);
    let mut add = vec![0u8; w * h];
    add[..8].fill(1);
    let mut erase = vec![0u8; w * h];
    erase[0..2].fill(1);

    let mut ps = PatchStore::default();
    ps.push(Patch { frame: 5, op: PatchOp::Add, mask: add.clone() });
    ps.push(Patch { frame: 5, op: PatchOp::Erase, mask: erase.clone() });
    let file = ps.push(Patch { frame: 9, op: PatchOp::Add, mask: vec![1; w * h] });

    let ps2 = PatchStore::load(Some(&file));
    assert_eq!(ps2.patches.len(), 3);
    assert_eq!(ps2.patches[0].frame, 5);
    assert_eq!(ps2.patches[1].op, PatchOp::Erase);

    let mut mask = vec![0u8; w * h];
    ps2.apply(5, &mut mask);
    assert_eq!(&mask[..8], &[0, 0, 1, 1, 1, 1, 1, 1]);
    let mut other = vec![0u8; w * h];
    ps2.apply(6, &mut other);
    assert!(other.iter().all(|&v| v == 0));

    let mut ps3 = ps2;
    let file = ps3.clear_frame(5);
    assert_eq!(PatchStore::load(Some(&file)).patches.len(), 1);
}

#[test]
fn frame_names_are_recognised() {
    assert_eq!(frame_index("frame_00000042.mask"), Some(42));
    assert_eq!(frame_index("frame_00000042.inst"), None);
    assert_eq!(frame_index("other.mask"), None);
    let store = MaskStore::new(Platform::Unix, "d");
    assert_eq!(store.frame_tmp_path(3), "d/frame_00000003.tmp");
    assert_eq!(store.inst_path(3), "d/frame_00000003.inst");
    assert_eq!(store.meta_path(), "d/meta.json");
}

#[test]
fn store_errors_say_what_is_wrong() {
    let store = MaskStore::new(Platform::Unix, "d");
    let e = store.verify(false, None, 1, 1).unwrap_err();
    assert_eq!(e.message(), "mask 目录不存在: d");
    let e = store.verify(true, None, 1, 1).unwrap_err();
    assert_eq!(e.message(), "meta.json 缺失或损坏（先运行 analyze）");
    let meta = MaskMeta { width: 640, height: 360, frames: 0 };
    let e = store.verify(true, Some(meta), 1, 2).unwrap_err();
    assert_eq!(e.message(), "mask 缓存与视频不符：缓存 640×360，视频 1×2");
    assert_eq!(MaskStoreError::Corrupt(7).message(), "帧 7 的 mask 文件损坏（RLE 长度不符）");
    assert_eq!(MaskStoreError::Io("x".into()).message(), "I/O: x");
}

#[test]
fn unreadable_corrections_are_no_corrections() {
    assert_eq!(PatchStore::load(None).patches.len(), 0);
    assert_eq!(PatchStore::load(Some(&[1, 2, 3])).patches.len(), 0);
}

#[test]
fn runs_of_equal_bytes() {
    let mut buf = vec![];
    rle_encode(&[0, 0, 1, 1, 1], &mut buf);
    let mut off = 0;
    assert_eq!(rle_decode(&buf, &mut off, 5), Some(vec![0, 0, 1, 1, 1]));
    assert_eq!(off, buf.len());
    let mut off = 0;
    assert_eq!(rle_decode(&buf, &mut off, 6), None);
    assert_eq!(off, 0);
    let mut off = 0;
    assert_eq!(rle_decode_any(&buf, &mut off), Some(vec![0, 0, 1, 1, 1]));
}

#[test]
fn corrections_of_other_frames_are_kept() {
    let mut ps = PatchStore::default();
    ps.push(Patch { frame: 1, op: PatchOp::Add, mask: vec![1, 0] });
    ps.push(Patch { frame: 2, op: PatchOp::Add, mask: vec![0, 1] });
    ps.clear_frame(1);
    let mut m = vec![0, 0];
    ps.apply(1, &mut m);
    assert_eq!(m, vec![0, 0]);
    ps.apply(2, &mut m);
    assert_eq!(m, vec![0, 1]);
}

#[test]
fn two_stages_do_what_one_does() {
    let (w, h) = (8, 8);
    let store = MaskStore::new(Platform::Unix, "masks");
    let mut mask = vec![0u8; w * h];
    mask[9] = 1;
    mask[10] = 1;
    let frame: Vec<u8> = (0..w * h * 3 / 2).map(|i| (i * 7 % 251) as u8).collect();
    for style in [MaskStyle::Solid, MaskStyle::Mosaic { cell: 3 }, MaskStyle::Blur { radius: 2 }] {
        let mut at_once = frame.clone();
        apply(&mut at_once, w, h, &mask, &style);
        let (file, meta) = store.save_mask(4, &MaskMeta { width: 8, height: 8, frames: 0 }, &mask);
        assert_eq!((meta.width, meta.height, meta.frames), (8, 8, 5));
        let loaded = store.load_mask(4, Some(&file), w, h);
        let mut later = frame.clone();
        let mut patches = PatchStore::load(None);
        patches.push(Patch { frame: 5, op: PatchOp::Erase, mask: mask.clone() });
        assert_eq!(render_frame(&mut later, w, h, 4, loaded, &patches, &style), Ok(true));
        assert_eq!(later, at_once);
        assert_ne!(later, frame);
    }
}
