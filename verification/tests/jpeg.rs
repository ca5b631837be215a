use automosaic::jpeg::{frame_from_picture, Picture, PictureInfo, PixelFormat};

fn picture(width: u16, height: u16, format: PixelFormat, n: usize) -> Picture {
    Picture { pixels: vec![255; n], info: Some(PictureInfo { width, height, format }) }
}

#[test]
fn decoded_pictures_are_checked() {
    let f = frame_from_picture(Ok(picture(2, 2, PixelFormat::RGB24, 12)), 2, 2).unwrap();
    assert_eq!(f, vec![235, 235, 235, 235, 128, 128]);
    let e = frame_from_picture(Ok(picture(2, 2, PixelFormat::L8, 4)), 2, 2).unwrap_err();
    assert_eq!(e, "期望 RGB24 输出，得到 L8");
    let e = frame_from_picture(Ok(picture(2, 2, PixelFormat::CMYK32, 16)), 2, 2).unwrap_err();
    assert_eq!(e, "期望 RGB24 输出，得到 CMYK32");
    let e = frame_from_picture(Ok(picture(2, 2, PixelFormat::L16, 8)), 4, 2).unwrap_err();
    assert_eq!(e, "JPEG 帧 2×2 与视频 4×2 不符");
    let e = frame_from_picture(Ok(Picture { pixels: vec![], info: None }), 2, 2).unwrap_err();
    assert_eq!(e, "JPEG 缺少头信息");
    let e = frame_from_picture(Err("bad".into()), 2, 2).unwrap_err();
    assert_eq!(e, "JPEG 解码失败: bad");
}
