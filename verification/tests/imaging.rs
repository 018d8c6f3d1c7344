use worldrenderer::imaging::{
    can_read_jpeg, jpeg_rgba, png_rgba, read_jpeg, read_png, terrain_of, try_decode_jpeg_rgba,
    try_decode_png_rgba, try_decode_terrarium, try_read_jpeg, JpegColor, JpegFrame, PngColor,
    PngFrame,
};
use worldrenderer::imaging::{decode_jpeg_rgba, decode_png_rgba, decode_terrarium};
use worldrenderer::worker::{icon_blob, icon_of, icon_parts, try_icon_of};

fn png_file(color: png::ColorType, width: u32, height: u32, samples: &[u8]) -> Vec<u8> {
    let mut out: Vec<u8> = vec![];
    let mut encoder = png::Encoder::new(&mut out, width, height);
    encoder.set_color(color);
    encoder.set_depth(png::BitDepth::Eight);
    if color == png::ColorType::Indexed {
        encoder.set_palette(vec![1u8, 2, 3, 4, 5, 6]);
    }
    let mut writer = encoder.write_header().unwrap();
    writer.write_image_data(samples).unwrap();
    writer.finish().unwrap();
    out
}

/// A JPEG of one pixel with so many components, the first of them 148 and the others
/// in the middle.
fn jpeg_file(components: u8) -> Vec<u8> {
    let mut out: Vec<u8> = vec![0xff, 0xd8];
    out.extend([0xff, 0xdb, 0, 67, 0]);
    out.extend([8u8; 64]);
    out.extend([0xff, 0xc0, 0, 8 + 3 * components, 8, 0, 1, 0, 1, components]);
    for c in 1..=components {
        out.extend([c, 0x11, 0]);
    }
    out.extend([0xff, 0xc4, 0, 21, 0x00, 1, 1]);
    out.extend([0u8; 14]);
    out.extend([0, 5]);
    out.extend([0xff, 0xc4, 0, 20, 0x10, 1]);
    out.extend([0u8; 15]);
    out.extend([0]);
    out.extend([0xff, 0xda, 0, 6 + 2 * components, components]);
    for c in 1..=components {
        out.extend([c, 0x00]);
    }
    out.extend([0, 63, 0]);
    // The first component: a difference of five bits, 20, and no more.
    let mut bits: Vec<u8> = vec![1, 0, 1, 0, 1, 0, 0, 0];
    for _ in 1..components {
        bits.extend([0, 0]);
    }
    while bits.len() % 8 != 0 {
        bits.push(1);
    }
    for byte in bits.chunks(8) {
        out.push(byte.iter().fold(0, |n, b| n * 2 + b));
    }
    out.extend([0xff, 0xd9]);
    out
}

#[test]
fn pngs_become_four_samples_to_the_pixel() {
    let rgb = png_file(png::ColorType::Rgb, 2, 1, &[1, 2, 3, 4, 5, 6]);
    let expected = Ok((2, 1, vec![1, 2, 3, 255, 4, 5, 6, 255]));
    assert_eq!(try_decode_png_rgba(&rgb), Some(expected.clone()));
    assert_eq!(decode_png_rgba(&rgb), expected);
    let rgba = png_file(png::ColorType::Rgba, 1, 2, &[1, 2, 3, 4, 5, 6, 7, 8]);
    assert_eq!(try_decode_png_rgba(&rgba), Some(Ok((1, 2, vec![1, 2, 3, 4, 5, 6, 7, 8]))));
    let gray = png_file(png::ColorType::Grayscale, 1, 1, &[9]);
    assert_eq!(try_decode_png_rgba(&gray), Some(Ok((1, 1, vec![9, 9, 9, 255]))));
}

#[test]
fn other_pngs_are_refused() {
    let indexed = png_file(png::ColorType::Indexed, 1, 1, &[1]);
    assert_eq!(
        try_decode_png_rgba(&indexed),
        Some(Err("unsupported png color type Indexed".to_string()))
    );
    let faint = png_file(png::ColorType::GrayscaleAlpha, 1, 1, &[1, 2]);
    assert_eq!(
        try_decode_png_rgba(&faint),
        Some(Err("unsupported png color type GrayscaleAlpha".to_string()))
    );
    let broken = try_decode_png_rgba(&[1, 2, 3]).unwrap();
    assert!(broken.unwrap_err().len() > 0);
    assert!(read_png(&[]).is_err());
}

#[test]
fn frames_become_pixels() {
    let frame = PngFrame { width: 1, height: 1, color: PngColor::Rgb, samples: vec![7, 8, 9, 10] };
    assert!(frame.sound());
    assert_eq!(png_rgba(&frame), Ok((1, 1, vec![7, 8, 9, 255])));
    let short = PngFrame { width: 2, height: 1, color: PngColor::Rgb, samples: vec![7, 8, 9] };
    assert!(!short.sound());
    let none = PngFrame { width: 0, height: 3, color: PngColor::Rgba, samples: vec![] };
    assert_eq!(png_rgba(&none), Ok((0, 3, vec![])));
    let gray = JpegFrame { samples: vec![3], info: Some((1, 1, JpegColor::L8)) };
    assert!(gray.sound());
    assert_eq!(jpeg_rgba(&gray), Ok((1, 1, vec![3, 3, 3, 255])));
    let nothing = JpegFrame { samples: vec![3], info: None };
    assert_eq!(jpeg_rgba(&nothing), Err("no jpeg info".to_string()));
    let deep = JpegFrame { samples: vec![3, 3], info: Some((1, 1, JpegColor::L16)) };
    assert_eq!(jpeg_rgba(&deep), Err("unsupported jpeg pixel format L16".to_string()));
}

#[test]
fn jpegs_become_four_samples_to_the_pixel() {
    let gray = jpeg_file(1);
    assert_eq!(decode_jpeg_rgba(&gray), Ok((1, 1, vec![148, 148, 148, 255])));
    let color = jpeg_file(3);
    assert_eq!(try_decode_jpeg_rgba(&color), Some(Ok((1, 1, vec![148, 148, 148, 255]))));
    let frame = read_jpeg(&color).unwrap();
    assert!(frame.info == Some((1, 1, JpegColor::Rgb24)));
}

#[test]
fn other_jpegs_are_refused() {
    assert_eq!(
        try_decode_jpeg_rgba(&jpeg_file(4)),
        Some(Err("unsupported jpeg pixel format CMYK32".to_string()))
    );
    let broken = try_decode_jpeg_rgba(&[0xff, 0xd8]).unwrap();
    assert!(broken.unwrap_err().len() > 0);
}

#[test]
fn terrain_is_read_in_parts_of_256_to_the_meter() {
    let file = png_file(png::ColorType::Rgb, 2, 1, &[128, 0, 0, 129, 2, 3]);
    let map = decode_terrarium(&file).unwrap();
    assert_eq!((map.w, map.h), (2, 1));
    assert_eq!(map.data, [0, 65536 + 2 * 256 + 3]);
    let low = png_file(png::ColorType::Rgba, 1, 1, &[0, 0, 0, 7]);
    assert_eq!(try_decode_terrarium(&low).unwrap().unwrap().data, [-8_388_608]);
    let gray = png_file(png::ColorType::Grayscale, 1, 1, &[1]);
    assert_eq!(
        try_decode_terrarium(&gray).unwrap().err(),
        Some("unsupported terrarium color type Grayscale".to_string())
    );
    assert!(try_decode_terrarium(&[]).unwrap().is_err());
    let frame = PngFrame { width: 1, height: 1, color: PngColor::Rgb, samples: vec![255; 3] };
    assert!(frame.terrain_sound());
    assert_eq!(terrain_of(&frame).unwrap().data, [8_388_607]);
}

#[test]
fn icons_are_pngs_or_jpegs() {
    let file = png_file(png::ColorType::Rgb, 1, 1, &[1, 2, 3]);
    let blob = icon_of(&file).unwrap();
    assert_eq!(blob, [1, 0, 0, 0, 1, 0, 0, 0, 1, 2, 3, 255]);
    assert_eq!(icon_parts(&blob), Some((1, 1, vec![1, 2, 3, 255])));
    let photo = try_icon_of(&jpeg_file(3)).unwrap().unwrap();
    assert_eq!(photo, icon_blob(1, 1, &vec![148, 148, 148, 255]));
    assert_eq!(try_icon_of(&[1, 2]), Some(None));
    assert_eq!(icon_parts(&[1; 7]), None);
}

#[test]
fn jpegs_with_too_many_lines_are_not_decoded() {
    // The height stands at 76 and 77, the width after it.
    let sized = |height: u16, width: u16| {
        let mut file = jpeg_file(1);
        file[76..78].copy_from_slice(&height.to_be_bytes());
        file[78..80].copy_from_slice(&width.to_be_bytes());
        file
    };
    assert!(try_decode_jpeg_rgba(&sized(1, 1)).unwrap().is_ok());
    for (height, width) in [(65_535, 1), (65_529, 1), (1, 65_529), (65_535, 65_535)] {
        let file = sized(height, width);
        assert!(!can_read_jpeg(&file));
        assert!(try_read_jpeg(&file).is_none());
        assert!(try_decode_jpeg_rgba(&file).is_none());
        assert!(try_icon_of(&file).is_none());
    }
    let tall = try_decode_jpeg_rgba(&sized(65_528, 1)).unwrap().unwrap();
    assert_eq!((tall.0, tall.1, tall.2.len()), (1, 65_528, 4 * 65_528));
    assert!(can_read_jpeg(&[]));
    assert!(try_read_jpeg(&[1, 2, 3]).unwrap().is_err());
}

/// A lossless JPEG of one gray pixel in the middle of so many bits.
fn lossless_file(bits: u8) -> Vec<u8> {
    let mut out: Vec<u8> = vec![0xff, 0xd8];
    out.extend([0xff, 0xc3, 0, 11, bits, 0, 1, 0, 1, 1, 1, 0x11, 0]);
    out.extend([0xff, 0xc4, 0, 20, 0x00, 1]);
    out.extend([0u8; 15]);
    out.extend([0]);
    out.extend([0xff, 0xda, 0, 8, 1, 1, 0x00, 1, 0, 0]);
    out.extend([0x7f, 0xff, 0xd9]);
    out
}

#[test]
fn samples_beside_eight_bits_come_as_words() {
    let whole = read_jpeg(&lossless_file(8)).unwrap();
    assert_eq!(whole.samples, [128]);
    assert!(whole.info == Some((1, 1, JpegColor::L8)));
    let small = read_jpeg(&lossless_file(4)).unwrap();
    assert_eq!(small.samples, 8u16.to_ne_bytes());
    let first = 8u16.to_ne_bytes()[0];
    assert_eq!(
        try_decode_jpeg_rgba(&lossless_file(4)),
        Some(Ok((1, 1, vec![first, first, first, 255])))
    );
    assert_eq!(
        try_decode_jpeg_rgba(&lossless_file(12)),
        Some(Err("unsupported jpeg pixel format L16".to_string()))
    );
}
