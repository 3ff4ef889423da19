use bunle::{
    is_image_extension, jxl_dimensions, prepare_as, prepare_page, EncodedPage,
    ImageFormat, PreparedPage, SourceKind,
};

fn encode(img: &image::RgbImage, format: image::ImageFormat) -> Vec<u8> {
    let mut out = std::io::Cursor::new(Vec::new());
    img.write_to(&mut out, format).unwrap();
    out.into_inner()
}

fn sample() -> image::RgbImage {
    image::RgbImage::from_fn(3, 2, |x, y| image::Rgb([x as u8 * 40, y as u8 * 90, 7]))
}

#[test]
fn jpeg_passes_through() {
    let raw = encode(&sample(), image::ImageFormat::Jpeg);
    match prepare_page(raw.clone()).unwrap() {
        PreparedPage::Ready(p) => {
            assert_eq!(p.data, raw);
            assert_eq!((p.width, p.height), (3, 2));
            assert_eq!(p.format, ImageFormat::Jpeg);
        }
        PreparedPage::NeedsWebp { .. } => panic!("jpeg must pass through"),
    }
}

#[test]
fn webp_passes_through() {
    let raw = encode(&sample(), image::ImageFormat::WebP);
    match prepare_page(raw.clone()).unwrap() {
        PreparedPage::Ready(p) => {
            assert_eq!(p.data, raw);
            assert_eq!((p.width, p.height), (3, 2));
            assert_eq!(p.format, ImageFormat::WebP);
        }
        PreparedPage::NeedsWebp { .. } => panic!("webp must pass through"),
    }
}

#[test]
fn png_is_decoded_to_rgb() {
    let img = sample();
    let raw = encode(&img, image::ImageFormat::Png);
    match prepare_page(raw).unwrap() {
        PreparedPage::NeedsWebp { rgb, width, height } => {
            assert_eq!((width, height), (3, 2));
            assert_eq!(rgb, img.into_raw());
        }
        PreparedPage::Ready(_) => panic!("png must be re-encoded"),
    }
}

#[test]
fn garbage_is_refused() {
    assert!(prepare_page(vec![1, 2, 3, 4, 5]).is_err());
    // a broken JPEG reports the decoder's error text
    match prepare_page(vec![0xff, 0xd8, 0xff, 0, 0]) {
        Err(e) => assert!(!e.is_empty()),
        Ok(_) => panic!("not a jpeg"),
    }
    // sniffed as jpeg, but no jpeg behind the marker
    assert!(prepare_as(vec![0xff, 0xd8, 0xff, 0, 0], SourceKind::Jpeg).is_err());
}

#[test]
fn webp_page_dimensions_truncate() {
    let p = EncodedPage::from_webp(vec![1, 2], 70000, 5);
    assert_eq!(p.width, 70000u32 as u16);
    assert_eq!(p.height, 5);
    assert_eq!(p.format, ImageFormat::WebP);
    assert_eq!(p.data, vec![1, 2]);
}

#[test]
fn extensions() {
    for ext in ["png", "jpg", "jpeg", "webp", "jxl", "bmp", "tiff"] {
        assert!(is_image_extension(ext.as_bytes()), "{ext}");
    }
    for ext in ["PNG", "gif", "tif", "", "jpegs", "txt"] {
        assert!(!is_image_extension(ext.as_bytes()), "{ext}");
    }
}

// small header, height (3 + 1) * 8 = 32, aspect ratio 1:1
const JXL_CODESTREAM: [u8; 6] = [0xff, 0x0a, 0x47, 0x00, 0x00, 0x00];

#[test]
fn jxl_codestream_passes_through() {
    let raw = JXL_CODESTREAM.to_vec();
    assert_eq!(jxl_dimensions(&raw), Some((32, 32)));
    match prepare_page(raw.clone()).unwrap() {
        PreparedPage::Ready(p) => {
            assert_eq!(p.data, raw);
            assert_eq!((p.width, p.height), (32, 32));
            assert_eq!(p.format, ImageFormat::Jxl);
        }
        PreparedPage::NeedsWebp { .. } => panic!("jxl must pass through"),
    }
}

#[test]
fn jxl_container_passes_through() {
    let mut raw = vec![0, 0, 0, 0x0c, b'J', b'X', b'L', b' ', 0x0d, 0x0a, 0x87, 0x0a];
    raw.extend_from_slice(&[0, 0, 0, 0x14, b'f', b't', b'y', b'p', b'j', b'x', b'l', b' ', 0, 0, 0, 0, b'j', b'x', b'l', b' ']);
    raw.extend_from_slice(&[0, 0, 0, 0x0e, b'j', b'x', b'l', b'c']);
    raw.extend_from_slice(&JXL_CODESTREAM);
    assert_eq!(jxl_dimensions(&raw), Some((32, 32)));
    // a jxlp box: part index, then the codestream
    let mut parts = raw[..32].to_vec();
    parts.extend_from_slice(&[0, 0, 0, 0x12, b'j', b'x', b'l', b'p', 0, 0, 0, 0]);
    parts.extend_from_slice(&JXL_CODESTREAM);
    assert_eq!(jxl_dimensions(&parts), Some((32, 32)));
    match prepare_page(parts.clone()).unwrap() {
        PreparedPage::Ready(p) => {
            assert_eq!(p.data, parts);
            assert_eq!(p.format, ImageFormat::Jxl);
        }
        PreparedPage::NeedsWebp { .. } => panic!("jxl must pass through"),
    }
}

#[test]
fn jxl_large_dimensions() {
    // not small: height selector 1 (13 bits) = 999 + 1, ratio 7 (2:1)
    // bits: small=0, sel=1 (2 bits), value 999 (13 bits), ratio 7 (3 bits)
    let mut v: u64 = 0;
    let mut pos = 0;
    for (val, n) in [(0u64, 1), (1, 2), (999, 13), (7, 3)] {
        v |= val << pos;
        pos += n;
    }
    let mut raw = vec![0xff, 0x0a];
    raw.extend_from_slice(&v.to_le_bytes()[..3]);
    assert_eq!(jxl_dimensions(&raw), Some((2000, 1000)));
}

#[test]
fn jxl_truncated_header_is_refused() {
    match prepare_page(vec![0xff, 0x0a]) {
        Err(e) => assert_eq!(e, "invalid JPEG XL header"),
        Ok(_) => panic!("no size header"),
    }
    assert_eq!(jxl_dimensions(&[1, 2, 3]), None);
}

#[test]
fn jxl_codestream_split_across_parts() {
    let mut raw = vec![0, 0, 0, 0x0c, b'J', b'X', b'L', b' ', 0x0d, 0x0a, 0x87, 0x0a];
    raw.extend_from_slice(&[0, 0, 0, 0x14, b'f', b't', b'y', b'p', b'j', b'x', b'l', b' ', 0, 0, 0, 0, b'j', b'x', b'l', b' ']);
    // first part holds only the signature
    raw.extend_from_slice(&[0, 0, 0, 0x0e, b'j', b'x', b'l', b'p', 0, 0, 0, 0]);
    raw.extend_from_slice(&JXL_CODESTREAM[..2]);
    // an unrelated box between the parts
    raw.extend_from_slice(&[0, 0, 0, 0x09, b'x', b'm', b'l', b' ', b'!']);
    // last part (high bit of the index set) holds the size header
    raw.extend_from_slice(&[0, 0, 0, 0x10, b'j', b'x', b'l', b'p', 0x80, 0, 0, 1]);
    raw.extend_from_slice(&JXL_CODESTREAM[2..]);
    assert_eq!(jxl_dimensions(&raw), Some((32, 32)));
    match prepare_page(raw.clone()).unwrap() {
        PreparedPage::Ready(p) => {
            assert_eq!(p.data, raw);
            assert_eq!((p.width, p.height), (32, 32));
            assert_eq!(p.format, ImageFormat::Jxl);
        }
        PreparedPage::NeedsWebp { .. } => panic!("jxl must pass through"),
    }
    // without the second part the size header is missing
    let first_only = raw[..46].to_vec();
    assert_eq!(jxl_dimensions(&first_only), None);
    match prepare_page(first_only) {
        Err(e) => assert_eq!(e, "invalid JPEG XL header"),
        Ok(_) => panic!("size header is incomplete"),
    }
}

#[test]
fn page_selection() {
    let names: Vec<Vec<u8>> = ["b.png", "notes.txt", "a.jpg", ".png", "c.JPG", "a.jpeg", "x.tar.webp", "..", "noext"]
        .iter()
        .map(|s| s.as_bytes().to_vec())
        .collect();
    let order = bunle::select_pages(&names).unwrap();
    let chosen: Vec<&str> = order.iter().map(|&i| std::str::from_utf8(&names[i]).unwrap()).collect();
    assert_eq!(chosen, vec!["a.jpeg", "a.jpg", "b.png", "x.tar.webp"]);
    assert!(bunle::is_source_name_exec(b"page.tiff"));
    assert!(!bunle::is_source_name_exec(b".jxl"));
    let none: Vec<Vec<u8>> = vec![b"readme".to_vec(), b"x.gif".to_vec()];
    assert!(matches!(bunle::select_pages(&none), Err(bunle::PackError::NoImages)));
}
