use korome::{RgbaImage, TextureError};
use std::io::Cursor;

fn encode(width: u32, height: u32, data: Vec<u8>, format: image::ImageFormat) -> Vec<u8> {
    let img = image::RgbaImage::from_raw(width, height, data).unwrap();
    let mut out = Cursor::new(Vec::new());
    img.write_to(&mut out, format).unwrap();
    out.into_inner()
}

fn encode_png(width: u32, height: u32, data: Vec<u8>) -> Vec<u8> {
    encode(width, height, data, image::ImageFormat::Png)
}

#[test]
fn from_raw_checks_length() {
    assert!(RgbaImage::from_raw(2, 1, vec![0; 8]).is_some());
    assert!(RgbaImage::from_raw(2, 1, vec![0; 7]).is_none());
    assert!(RgbaImage::from_raw(2, 1, vec![0; 9]).is_none());
    assert!(RgbaImage::from_raw(0, 5, Vec::new()).is_some());
    let img = RgbaImage::from_raw(1, 2, vec![1, 2, 3, 4, 5, 6, 7, 8]).unwrap();
    assert_eq!(img.dimensions(), (1, 2));
    assert_eq!(img.width(), 1);
    assert_eq!(img.height(), 2);
    assert_eq!(img.as_raw(), &vec![1, 2, 3, 4, 5, 6, 7, 8]);
    assert_eq!(img.into_raw(), vec![1, 2, 3, 4, 5, 6, 7, 8]);
}

#[test]
fn reversed_rows_puts_bottom_row_first() {
    let data: Vec<u8> = (0..24).collect();
    let img = RgbaImage::from_raw(2, 3, data).unwrap();
    let rev = img.reversed_rows();
    let mut expected: Vec<u8> = (16..24).collect();
    expected.extend(8..16);
    expected.extend(0..8);
    assert_eq!(rev, expected);
}

#[test]
fn reversed_rows_single_row_and_empty() {
    let img = RgbaImage::from_raw(2, 1, vec![9, 8, 7, 6, 5, 4, 3, 2]).unwrap();
    assert_eq!(img.reversed_rows(), vec![9, 8, 7, 6, 5, 4, 3, 2]);
    let empty = RgbaImage::from_raw(3, 0, Vec::new()).unwrap();
    assert!(empty.reversed_rows().is_empty());
}

#[test]
fn reversing_twice_gives_back_the_rows() {
    let data: Vec<u8> = (0..48).map(|i| (i * 7 % 251) as u8).collect();
    let img = RgbaImage::from_raw(3, 4, data.clone()).unwrap();
    let once = RgbaImage::from_raw(3, 4, img.reversed_rows()).unwrap();
    assert_eq!(once.reversed_rows(), data);
}

#[test]
fn decodes_png_bytes() {
    let data: Vec<u8> = vec![
        255, 0, 0, 255, 0, 255, 0, 255, 0, 0, 255, 128, //
        10, 20, 30, 40, 50, 60, 70, 80, 90, 100, 110, 120,
    ];
    let png = encode_png(3, 2, data.clone());
    let img = RgbaImage::from_png_bytes(&png).ok().unwrap();
    assert_eq!(img.dimensions(), (3, 2));
    assert_eq!(img.as_raw(), &data);
    let rev = img.reversed_rows();
    assert_eq!(&rev[..12], &data[12..]);
    assert_eq!(&rev[12..], &data[..12]);
}

#[test]
fn rejects_bytes_that_are_not_png() {
    match RgbaImage::from_png_bytes(b"definitely not a png") {
        Err(TextureError::ImageError(_)) => {}
        Ok(_) => panic!("garbage decoded"),
    }
    assert!(RgbaImage::from_png_bytes(&[]).is_err());
}

#[test]
fn decodes_by_extension() {
    let data: Vec<u8> = vec![
        1, 2, 3, 255, 4, 5, 6, 255, //
        7, 8, 9, 255, 10, 11, 12, 255,
    ];
    let png = encode_png(2, 2, data.clone());
    let img = RgbaImage::from_bytes_with_extension(&png, "png").ok().unwrap();
    assert_eq!(img.dimensions(), (2, 2));
    assert_eq!(img.as_raw(), &data);
    let img = RgbaImage::from_bytes_with_extension(&png, "PNG").ok().unwrap();
    assert_eq!(img.as_raw(), &data);
    let bmp = encode(2, 2, data.clone(), image::ImageFormat::Bmp);
    let img = RgbaImage::from_bytes_with_extension(&bmp, "bmp").ok().unwrap();
    assert_eq!(img.dimensions(), (2, 2));
    assert_eq!(img.as_raw(), &data);
}

#[test]
fn rejects_unknown_or_wrong_extension() {
    let png = encode_png(1, 1, vec![1, 2, 3, 4]);
    assert!(RgbaImage::from_bytes_with_extension(&png, "").is_err());
    assert!(RgbaImage::from_bytes_with_extension(&png, "nope").is_err());
    assert!(RgbaImage::from_bytes_with_extension(&png, "gif").is_err());
}
