use boot_catcher::png::{parse_png_size, BootSize, PngError};

fn header(w: [u8; 4], h: [u8; 4]) -> Vec<u8> {
    let mut v = vec![137, 80, 78, 71, 13, 10, 26, 10, 0, 0, 0, 13, b'I', b'H', b'D', b'R'];
    v.extend_from_slice(&w);
    v.extend_from_slice(&h);
    v
}

#[test]
fn png_size_read_big_endian() {
    assert_eq!(parse_png_size(&header([0, 0, 0, 88], [0, 0, 0, 112])), Ok(BootSize { w: 88, h: 112 }));
    assert_eq!(parse_png_size(&header([0, 0, 1, 2], [0, 1, 0, 0])), Ok(BootSize { w: 258, h: 65536 }));
}

#[test]
fn png_size_is_signed() {
    assert_eq!(parse_png_size(&header([255, 255, 255, 255], [128, 0, 0, 0])), Ok(BootSize { w: -1, h: i32::MIN }));
}

#[test]
fn png_bytes_after_header_are_ignored() {
    let mut h = header([0, 0, 0, 5], [0, 0, 0, 7]);
    h.extend_from_slice(&[1, 2, 3, 4, 5]);
    assert_eq!(parse_png_size(&h), Ok(BootSize { w: 5, h: 7 }));
}

#[test]
fn png_wrong_signature_or_chunk() {
    let mut h = header([0, 0, 0, 5], [0, 0, 0, 7]);
    h[0] = 0x88;
    assert_eq!(parse_png_size(&h), Err(PngError::NotPng));
    let mut h = header([0, 0, 0, 5], [0, 0, 0, 7]);
    h[12] = b'X';
    assert_eq!(parse_png_size(&h), Err(PngError::NotPng));
}

#[test]
fn png_short_header() {
    let h = header([0, 0, 0, 5], [0, 0, 0, 7]);
    assert_eq!(parse_png_size(&h[..23]), Err(PngError::TooShort));
    assert_eq!(parse_png_size(&[]), Err(PngError::TooShort));
}
