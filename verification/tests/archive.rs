use bunle::{
    digit_width, extract_page, pack, page_file_name, read_index, unpack_files, validate,
    EncodedPage, ExtractError, ImageFormat, MCZIndex, PackError, ParseError, ValidateError,
    MAX_PAGES,
};

fn page(data: Vec<u8>, width: u16, height: u16, format: ImageFormat) -> EncodedPage {
    EncodedPage { data, width, height, format }
}

fn two_pages() -> Vec<EncodedPage> {
    vec![
        page(vec![0xFF, 0xD8, 0xFF, 0xE0], 690, 1024, ImageFormat::Jpeg),
        page(vec![0x52, 0x49, 0x46, 0x46], 690, 980, ImageFormat::WebP),
    ]
}

#[test]
fn unpack_roundtrip() {
    let pages = two_pages();
    let mut buf = Vec::new();
    pack(&pages, &mut buf, false).unwrap();

    let unpacked = unpack_files(&buf).unwrap();
    let (index, files) = (unpacked.index, unpacked.files);
    assert!(unpacked.failure.is_none());
    assert_eq!(index.pages.len(), 2);
    assert_eq!(files.len(), 2);
    assert_eq!(files[0].name, "000.jpg");
    assert_eq!(files[0].data, vec![0xFF, 0xD8, 0xFF, 0xE0]);
    assert_eq!(files[1].name, "001.webp");
    assert_eq!(files[1].data, vec![0x52, 0x49, 0x46, 0x46]);
}

#[test]
fn digit_width_minimum_three() {
    assert_eq!(digit_width(1), 3);
    assert_eq!(digit_width(10), 3);
    assert_eq!(digit_width(1000), 3);
    assert_eq!(digit_width(1001), 4);
    assert_eq!(digit_width(65536), 5);
}

#[test]
fn valid_archive_passes() {
    let pages = vec![EncodedPage {
        data: vec![0x52, 0x49, 0x46, 0x46, 0, 0, 0, 0, b'W', b'E', b'B', b'P'],
        width: 100,
        height: 200,
        format: ImageFormat::WebP,
    }];
    let mut buf = Vec::new();
    pack(&pages, &mut buf, false).unwrap();

    let report = validate(&buf).unwrap();
    assert_eq!(report.page_count, 1);
    assert_eq!(report.version, 1);
}

#[test]
fn truncated_archive_fails() {
    let pages = vec![EncodedPage {
        data: vec![1, 2, 3, 4, 5, 6, 7, 8],
        width: 10,
        height: 10,
        format: ImageFormat::WebP,
    }];
    let mut buf = Vec::new();
    pack(&pages, &mut buf, false).unwrap();

    buf.truncate(buf.len() - 4);
    assert!(matches!(
        validate(&buf),
        Err(ValidateError::Extract(0, ExtractError::DataTruncated))
    ));
}

#[test]
fn plain_archive_layout() {
    let pages = two_pages();
    let mut buf = Vec::new();
    let index = pack(&pages, &mut buf, false).unwrap();
    // header 8 + 2 entries of 16 + 8 data bytes
    assert_eq!(buf.len(), 48);
    assert_eq!(&buf[0..8], &[b'M', b'C', b'Z', b'F', 1, 0, 2, 0]);
    assert_eq!(index.version, 1);
    assert_eq!(index.pages[0].offset, 40);
    assert_eq!(index.pages[0].size, 4);
    assert_eq!(index.pages[1].offset, 44);
    assert_eq!(index.pages[1].index, 1);
    // first entry: offset 40, size 4, width 690, height 1024, format jpeg
    assert_eq!(
        &buf[8..24],
        &[40, 0, 0, 0, 4, 0, 0, 0, 0xB2, 0x02, 0x00, 0x04, 1, 0, 0, 0]
    );
    assert_eq!(&buf[40..44], &[0xFF, 0xD8, 0xFF, 0xE0]);
    assert_eq!(MCZIndex::data_offset(2), 40);
}

#[test]
fn read_index_gives_back_pack_index() {
    for cover in [false, true] {
        let pages = two_pages();
        let mut buf = Vec::new();
        let index = pack(&pages, &mut buf, cover).unwrap();
        let read = read_index(&buf).unwrap();
        assert_eq!(read.version, index.version);
        assert_eq!(read.pages, index.pages);
        for (i, p) in pages.iter().enumerate() {
            assert_eq!(extract_page(&buf, &read, i).unwrap(), p.data.as_slice());
        }
    }
}

#[test]
fn cover_archive_layout() {
    let pages = vec![page(vec![9, 8, 7], 3, 2, ImageFormat::Jxl)];
    let mut buf = Vec::new();
    let index = pack(&pages, &mut buf, true).unwrap();
    // mcz part: 8 + 16 + 3 = 27 (odd), so one pad byte.
    assert_eq!(buf.len(), 46 + 27 + 1);
    assert_eq!(&buf[0..4], b"RIFF");
    assert_eq!(u32::from_le_bytes([buf[4], buf[5], buf[6], buf[7]]), 66);
    assert_eq!(&buf[8..16], b"WEBPVP8L");
    assert_eq!(buf[20], 0x2f);
    // (3 - 1) | (2 - 1) << 14
    assert_eq!(u32::from_le_bytes([buf[21], buf[22], buf[23], buf[24]]), 2 | (1 << 14));
    assert_eq!(&buf[38..42], b"MCZd");
    assert_eq!(u32::from_le_bytes([buf[42], buf[43], buf[44], buf[45]]), 27);
    assert_eq!(&buf[46..50], b"MCZF");
    assert_eq!(index.pages[0].offset, 46 + 24);
    assert_eq!(buf[buf.len() - 1], 0);
    assert_eq!(extract_page(&buf, &index, 0).unwrap(), &[9, 8, 7]);
}

#[test]
fn cover_is_a_decodable_webp_image() {
    let pages = vec![page(vec![1, 2, 3, 4], 5, 7, ImageFormat::WebP)];
    let mut buf = Vec::new();
    pack(&pages, &mut buf, true).unwrap();
    let img = image::load_from_memory(&buf).unwrap();
    assert_eq!(img.width(), 5);
    assert_eq!(img.height(), 7);
}

#[test]
fn empty_archive() {
    let mut buf = Vec::new();
    let index = pack(&[], &mut buf, false).unwrap();
    assert!(index.pages.is_empty());
    assert_eq!(buf.len(), 8);
    let report = validate(&buf).unwrap();
    assert_eq!(report.page_count, 0);
    assert_eq!(report.total_bytes, 8);
    // with cover, 1 x 1 image and no pad (8 is even)
    let mut covered = Vec::new();
    pack(&[], &mut covered, true).unwrap();
    assert_eq!(covered.len(), 54);
    assert_eq!(read_index(&covered).unwrap().pages.len(), 0);
}

#[test]
fn pack_appends_to_existing_output() {
    let pages = two_pages();
    let mut buf = vec![7u8, 7u8];
    pack(&pages, &mut buf, false).unwrap();
    assert_eq!(buf.len(), 50);
    assert_eq!(&buf[0..2], &[7, 7]);
    assert_eq!(&buf[2..6], b"MCZF");
}

#[test]
fn too_many_pages() {
    let pages: Vec<EncodedPage> = (0..MAX_PAGES + 1)
        .map(|_| page(Vec::new(), 1, 1, ImageFormat::WebP))
        .collect();
    let mut buf = Vec::new();
    match pack(&pages, &mut buf, false) {
        Err(PackError::TooManyPages(n)) => assert_eq!(n, 65536),
        other => panic!("unexpected: {:?}", other.map(|i| i.pages.len())),
    }
    assert!(buf.is_empty());
}

#[test]
fn parse_errors() {
    assert_eq!(read_index(&[]).unwrap_err(), ParseError::Truncated);
    assert_eq!(read_index(b"MCZF\x01\x00").unwrap_err(), ParseError::Truncated);
    assert_eq!(read_index(b"ABCD\x01\x00\x00\x00").unwrap_err(), ParseError::BadMagic);
    assert_eq!(
        read_index(b"MCZF\x02\x00\x00\x00").unwrap_err(),
        ParseError::UnsupportedVersion(2)
    );
    // one page announced, index missing
    assert_eq!(read_index(b"MCZF\x01\x00\x01\x00").unwrap_err(), ParseError::Truncated);
    assert_eq!(read_index(b"RIFF\x00\x00\x00\x00WEBP").unwrap_err(), ParseError::BadCover);

    let mut buf = Vec::new();
    pack(&two_pages(), &mut buf, false).unwrap();
    buf[8 + 16 + 12] = 9; // format byte of the second entry
    assert_eq!(read_index(&buf).unwrap_err(), ParseError::UnknownFormat(9));
    buf[8 + 12] = 7; // and of the first: the first one is reported
    assert_eq!(read_index(&buf).unwrap_err(), ParseError::UnknownFormat(7));
}

#[test]
fn extract_errors() {
    let mut buf = Vec::new();
    let index = pack(&two_pages(), &mut buf, false).unwrap();
    assert_eq!(extract_page(&buf, &index, 2).unwrap_err(), ExtractError::PageOutOfRange);
    assert_eq!(
        extract_page(&buf[..47], &index, 1).unwrap_err(),
        ExtractError::DataTruncated
    );
    assert_eq!(extract_page(&buf[..47], &index, 0).unwrap(), &[0xFF, 0xD8, 0xFF, 0xE0]);
}

#[test]
fn validate_zero_dimensions() {
    let pages = vec![
        page(vec![1], 4, 4, ImageFormat::Jpeg),
        page(vec![2], 0, 4, ImageFormat::Jpeg),
    ];
    let mut buf = Vec::new();
    pack(&pages, &mut buf, false).unwrap();
    assert!(matches!(validate(&buf), Err(ValidateError::ZeroDimensions(1))));
    assert!(matches!(
        validate(b"XXXX\x01\x00\x00\x00"),
        Err(ValidateError::Parse(ParseError::BadMagic))
    ));
}

#[test]
fn unpack_reports_errors() {
    assert!(matches!(
        unpack_files(b"MCZF"),
        Err(bunle::UnpackError::Parse(ParseError::Truncated))
    ));
    let mut buf = Vec::new();
    pack(&two_pages(), &mut buf, false).unwrap();
    buf.truncate(46);
    // the first page is still whole and is kept; the second is cut
    let unpacked = unpack_files(&buf).unwrap();
    assert_eq!(unpacked.failure, Some(ExtractError::DataTruncated));
    assert_eq!(unpacked.files.len(), 1);
    assert_eq!(unpacked.files[0].name, "000.jpg");
    assert_eq!(unpacked.files[0].data, vec![0xFF, 0xD8, 0xFF, 0xE0]);
}

#[test]
fn file_names() {
    assert_eq!(page_file_name(0, 3, ImageFormat::Jpeg), "000.jpg");
    assert_eq!(page_file_name(42, 3, ImageFormat::WebP), "042.webp");
    assert_eq!(page_file_name(1234, 3, ImageFormat::Jxl), "1234.jxl");
    assert_eq!(page_file_name(65535, 5, ImageFormat::Jxl), "65535.jxl");
    assert_eq!(page_file_name(7, 6, ImageFormat::WebP), "000007.webp");
    assert_eq!(ImageFormat::Jpeg.name(), "jpeg");
    assert_eq!(ImageFormat::Jxl.extension(), "jxl");
    assert_eq!(ImageFormat::from_code(2), Some(ImageFormat::Jxl));
    assert_eq!(ImageFormat::from_code(3), None);
    assert_eq!(ImageFormat::WebP.code(), 0);
}

#[test]
fn error_messages() {
    assert_eq!(ParseError::UnsupportedVersion(7).message(), "unsupported version 7");
    assert_eq!(ParseError::UnknownFormat(200).message(), "unknown image format 200");
    assert_eq!(ParseError::BadMagic.message(), "bad magic");
    assert_eq!(ExtractError::DataTruncated.message(), "page data truncated");
    assert_eq!(
        ValidateError::Extract(3, ExtractError::PageOutOfRange).message(),
        "page 3: page out of range"
    );
    assert_eq!(ValidateError::ZeroDimensions(12).message(), "page 12: zero width or height");
    assert_eq!(
        ValidateError::Parse(ParseError::Truncated).message(),
        "parse error: header or index truncated"
    );
    assert_eq!(PackError::TooManyPages(70000).message(), "too many pages: 70000 > 65535");
    assert_eq!(
        PackError::PageTooLarge(2, 5000000000).message(),
        "page 2 too large: 5000000000 bytes > 4294967295"
    );
    assert_eq!(
        PackError::ArchiveTooLarge(4294967296).message(),
        "archive too large: 4294967296 bytes > 4294967295"
    );
    assert_eq!(PackError::NoImages.message(), "no images found in directory");
    assert_eq!(
        PackError::Image("a.png".to_string(), "bad".to_string()).message(),
        "failed to process a.png: bad"
    );
    let io = std::io::Error::new(std::io::ErrorKind::Other, "disk full");
    assert_eq!(PackError::Io(io).message(), "io error: disk full");
    assert_eq!(
        bunle::UnpackError::Extract(ExtractError::DataTruncated).message(),
        "extract error: page data truncated"
    );
}

#[test]
fn info_descriptions() {
    let mut buf = Vec::new();
    let index = pack(&two_pages(), &mut buf, false).unwrap();
    assert_eq!(
        bunle::info_json(buf.len(), &index),
        "{\"version\":1,\"page_count\":2,\"total_bytes\":48,\"pages\":[\
         {\"index\":0,\"width\":690,\"height\":1024,\"format\":\"jpeg\",\"offset\":40,\"size\":4},\
         {\"index\":1,\"width\":690,\"height\":980,\"format\":\"webp\",\"offset\":44,\"size\":4}]}"
    );
    assert_eq!(
        bunle::info_text(buf.len(), &index),
        "BNL v1 — 2 pages, 48 bytes\n\
         Index size: 40 bytes\n\
         Data size:  8 bytes\n\
         \n  \
         \x20 0:  690×1024 jpeg  offset=40       size=4\n  \
         \x20 1:  690×980  webp  offset=44       size=4\n"
    );
    let empty = MCZIndex { version: 1, pages: Vec::new() };
    assert_eq!(
        bunle::info_json(8, &empty),
        "{\"version\":1,\"page_count\":0,\"total_bytes\":8,\"pages\":[]}"
    );
}

#[test]
fn pack_summary_lines() {
    let mut buf = Vec::new();
    let index = pack(&two_pages(), &mut buf, false).unwrap();
    assert_eq!(
        bunle::pack_summary(&index),
        "Total size: 48 bytes\n    0:  690×1024 jpeg        4 bytes\n    1:  690×980  webp        4 bytes\n"
    );
    let empty = MCZIndex { version: 1, pages: Vec::new() };
    assert_eq!(bunle::pack_summary(&empty), "Total size: 8 bytes\n");
}
