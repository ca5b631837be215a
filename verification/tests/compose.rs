use automosaic::color::{can_convert, does_hold_frame};
use automosaic::compose::{
    can_compose,
    apply, dilate, dilate3, dilate_region, erode_region, fill_rect, mask_bbox, shift_mask_region, ComposeBackend,
    ComposeCpu, MaskStyle, Region,
};

fn frame(w: usize, h: usize, y: u8) -> Vec<u8> {
    let mut nv12 = vec![128u8; w * h * 3 / 2];
    nv12[..w * h].fill(y);
    nv12
}

fn block(w: usize, h: usize, x1: usize, y1: usize, x2: usize, y2: usize) -> Vec<u8> {
    let mut mask = vec![0u8; w * h];
    for y in y1..y2 {
        for x in x1..x2 {
            mask[y * w + x] = 1;
        }
    }
    mask
}

#[test]
fn solid_blacks_masked_region() {
    let (w, h) = (32, 32);
    let mut nv12 = frame(w, h, 200);
    let mask = block(w, h, 8, 8, 16, 16);
    apply(&mut nv12, w, h, &mask, &MaskStyle::Solid);
    assert_eq!(nv12[12 * w + 12], 16);
    assert_eq!(nv12[0], 200);
    let uv = h * w + 6 * w + 6 * 2;
    assert_eq!((nv12[uv], nv12[uv + 1]), (128, 128));
}

#[test]
fn mosaic_flattens_gradient() {
    let (w, h) = (16, 16);
    let mut nv12 = frame(w, h, 0);
    for y in 0..4 {
        for x in 0..4 {
            nv12[y * w + x] = (x * 60) as u8;
        }
    }
    let mask = block(w, h, 0, 0, 4, 4);
    apply(&mut nv12, w, h, &mask, &MaskStyle::Mosaic { cell: 4 });
    let vals: Vec<u8> = (0..4).map(|y| nv12[y * w + y]).collect();
    assert!(vals.iter().all(|&v| v == 90), "{vals:?}");
}

#[test]
fn empty_mask_is_noop() {
    let (w, h) = (16, 16);
    let mut nv12 = frame(w, h, 100);
    let before = nv12.clone();
    apply(&mut nv12, w, h, &vec![0; w * h], &MaskStyle::Solid);
    assert_eq!(nv12, before);
}

#[test]
fn blur_reduces_contrast() {
    let (w, h) = (32, 32);
    let mut nv12 = frame(w, h, 0);
    nv12[16 * w + 16] = 255;
    let mask = block(w, h, 12, 12, 20, 20);
    apply(&mut nv12, w, h, &mask, &MaskStyle::Blur { radius: 4 });
    assert!(nv12[16 * w + 16] < 255);
}

#[test]
fn erode_region_shrinks_rect_by_n() {
    let (w, h) = (48, 48);
    let mut mask = block(w, h, 8, 8, 24, 24);
    mask[40 * w + 40] = 1;
    erode_region(&mut mask, w, h, [8, 8, 24, 24], 4);
    assert_eq!(mask[12 * w + 12], 1);
    assert_eq!(mask[16 * w + 16], 1);
    assert_eq!(mask[10 * w + 10], 0);
    assert_eq!(mask[11 * w + 11], 0);
    assert_eq!(mask[40 * w + 40], 1);
}

#[test]
fn erode_region_fully_consumes_large_n() {
    let (w, h) = (32, 32);
    let mut mask = block(w, h, 4, 4, 16, 16);
    erode_region(&mut mask, w, h, [4, 4, 16, 16], 200);
    assert!(mask.iter().all(|&v| v == 0));
}

#[test]
fn erode_region_zero_n_is_noop() {
    let (w, h) = (16, 16);
    let mut mask = vec![1u8; w * h];
    let before = mask.clone();
    erode_region(&mut mask, w, h, [0, 0, 16, 16], 0);
    assert_eq!(mask, before);
}

#[test]
fn shift_mask_region_moves_rect() {
    let (w, h) = (48, 48);
    let mut mask = block(w, h, 8, 8, 24, 24);
    mask[40 * w + 2] = 1;
    shift_mask_region(&mut mask, w, h, [8, 8, 24, 24], 6, 3);
    assert_eq!(mask[15 * w + 20], 1);
    assert_eq!(mask[9 * w + 9], 0);
    assert_eq!(mask[11 * w + 14], 1);
    assert_eq!(mask[10 * w + 14], 0);
    assert_eq!(mask[40 * w + 2], 1);

    let mut mask2 = block(w, h, 0, 0, 8, 8);
    shift_mask_region(&mut mask2, w, h, [0, 0, 8, 8], -4, 0);
    assert_eq!(mask2[4 * w], 1);
    assert_eq!(mask2[4 * w + 3], 1);
    assert_eq!(mask2[4 * w + 4], 0);
    assert_eq!(mask2[4 * w + 6], 0);
}

#[test]
fn growing_and_shrinking_by_a_pixel() {
    let (w, h) = (9, 9);
    let mut m = block(w, h, 4, 4, 5, 5);
    dilate3(&mut m, w, h);
    assert_eq!(m, block(w, h, 3, 3, 6, 6));
    dilate(&mut m, w, h, 2);
    assert_eq!(m, block(w, h, 1, 1, 8, 8));
    let mut r = block(w, h, 4, 4, 5, 5);
    dilate_region(&mut r, w, h, [4, 4, 4, 4], 1);
    assert_eq!(r, block(w, h, 3, 3, 6, 6));
}

#[test]
fn unmasked_bytes_stay_as_they_are() {
    let (w, h) = (16, 16);
    let mut nv12: Vec<u8> = (0..w * h * 3 / 2).map(|i| (i * 7 % 256) as u8).collect();
    let before = nv12.clone();
    let mask = block(w, h, 4, 4, 8, 8);
    apply(&mut nv12, w, h, &mask, &MaskStyle::Mosaic { cell: 4 });
    for y in 0..h {
        for x in 0..w {
            if mask[y * w + x] == 0 {
                assert_eq!(nv12[y * w + x], before[y * w + x]);
            }
        }
    }
    assert_eq!(nv12.len(), before.len());
}

#[test]
fn box_around_a_mask() {
    let (w, h) = (20, 10);
    let mask = block(w, h, 5, 2, 9, 4);
    assert_eq!(mask_bbox(&mask, w, h, 1), Some(Region { x1: 4, y1: 1, x2: 10, y2: 5 }));
    assert_eq!(mask_bbox(&vec![0; w * h], w, h, 1), None);
}

#[test]
fn rectangles_are_filled() {
    let mut buf = vec![0u8; 12];
    fill_rect(&mut buf, 4, 3, Region { x1: 1, y1: 1, x2: 3, y2: 3 }, 9);
    assert_eq!(buf, vec![0, 0, 0, 0, 0, 9, 9, 0, 0, 9, 9, 0]);
}

#[test]
fn the_processor_backend_composes() {
    let (w, h) = (8, 8);
    let mut a = frame(w, h, 77);
    let mut b = a.clone();
    let mask = block(w, h, 2, 2, 6, 6);
    ComposeCpu.apply(&mut a, w, h, &mask, &MaskStyle::Solid);
    apply(&mut b, w, h, &mask, &MaskStyle::Solid);
    assert_eq!(a, b);
    assert_eq!(a[3 * w + 3], 16);
}

#[test]
fn the_rim_of_a_region_is_eroded() {
    let mut m = vec![1u8; 32 * 32];
    erode_region(&mut m, 32, 32, [8, 8, 16, 16], 1);
    assert_eq!((m[5 * 32 + 5], m[6 * 32 + 6], m[4 * 32 + 4]), (0, 1, 1));
    assert_eq!((m[19 * 32 + 12], m[18 * 32 + 12], m[20 * 32 + 12]), (0, 1, 1));
}

#[test]
fn blur_leaves_unmasked_colours() {
    let mut f = vec![100u8; 16];
    f.extend([128, 128, 128, 200, 128, 128, 128, 128]);
    let was = f.clone();
    let mut mask = vec![0u8; 16];
    mask[6] = 1;
    mask[7] = 1;
    apply(&mut f, 8, 2, &mask, &MaskStyle::Blur { radius: 1 });
    assert_eq!(f, was);
    // The colour of a masked pixel is the mean of its neighbours, each colour difference for itself.
    mask[2] = 1;
    apply(&mut f, 8, 2, &mask, &MaskStyle::Blur { radius: 1 });
    assert_eq!(&f[16..], [128, 128, 128, 152, 128, 128, 128, 128]);
}

#[test]
fn composing_twice_changes_nothing_more() {
    let (w, h) = (16, 8);
    let noise: Vec<u8> = (0..w * h * 3 / 2).map(|i| (i * 37 % 251) as u8).collect();
    let mask = block(w, h, 3, 1, 9, 6);
    let mut once = noise.clone();
    apply(&mut once, w, h, &mask, &MaskStyle::Solid);
    assert_ne!(once, noise);
    let mut twice = once.clone();
    apply(&mut twice, w, h, &mask, &MaskStyle::Solid);
    assert_eq!(twice, once);
    let full = vec![1u8; w * h];
    let style = MaskStyle::Mosaic { cell: 5 };
    let mut once = noise.clone();
    apply(&mut once, w, h, &full, &style);
    assert_ne!(once, noise);
    let mut twice = once.clone();
    apply(&mut twice, w, h, &full, &style);
    assert_eq!(twice, once);
}

#[test]
fn a_mask_grows_by_distance() {
    let (w, h) = (9, 7);
    let mut m = vec![0u8; w * h];
    m[w + 1] = 1;
    m[5 * w + 7] = 1;
    dilate(&mut m, w, h, 2);
    for y in 0..h as i32 {
        for x in 0..w as i32 {
            let near = |a: i32, b: i32| (x - a).abs() <= 2 && (y - b).abs() <= 2;
            assert_eq!(m[y as usize * w + x as usize] != 0, near(1, 1) || near(7, 5));
        }
    }
}

#[test]
fn blur_samples_the_box_of_the_mask() {
    let mut f: Vec<u8> = vec![10, 20, 30, 40, 50, 60, 70, 80];
    f.extend([0; 8]);
    f.extend([128; 8]);
    let was = f.clone();
    let mut mask = vec![0u8; 16];
    mask[3] = 1;
    // Without any reach the box is the pixel alone.
    apply(&mut f, 8, 2, &mask, &MaskStyle::Blur { radius: 0 });
    assert_eq!(f, was);
    mask[4] = 1;
    apply(&mut f, 8, 2, &mask, &MaskStyle::Blur { radius: 0 });
    assert_eq!(f[..8], [10, 20, 30, 43, 46, 60, 70, 80]);
}

#[test]
fn frames_that_can_be_changed_and_shown() {
    let solid = MaskStyle::Solid;
    assert!(can_compose(24, 4, 4, &[1; 16], &solid));
    assert!(!can_compose(23, 4, 4, &[1; 16], &solid));
    assert!(!can_compose(24, 4, 4, &[1; 15], &solid));
    assert!(!can_compose(24, 4, 4, &[1; 16], &MaskStyle::Blur { radius: usize::MAX }));
    // The last column of an odd frame has no colours of its own.
    assert!(can_compose(20, 5, 3, &block(5, 3, 0, 0, 2, 2), &solid));
    assert!(!can_compose(20, 5, 3, &[1; 15], &solid));
    assert!(does_hold_frame(24, 4, 4) && !does_hold_frame(23, 4, 4) && does_hold_frame(0, 0, 7));
    assert!(!does_hold_frame(100, usize::MAX, usize::MAX));
    assert!(can_convert(24, 4, 4) && !can_convert(usize::MAX, usize::MAX / 4 + 1, 1));
}
