use gaeb_toolkit::inline_png::{parse_layout_images, ImageFile};
use gaeb_toolkit::pdf_cleanup::normalize;
use gaeb_toolkit::pictures::is_decodable;
use gaeb_toolkit::provisional_xml::apply_to_xml;
use gaeb_toolkit::{inject_pdf_pngs, BillOfQuantities, Node, Position};

const LAYOUT: &str =
    "<page number=\"1\"><image top=\"5\" width=\"64\" height=\"48\" src=\"a.jpg\"/></page>";

/// The header of a frame 24 pixels wide and 8 high.
fn frame(marker: u8, factors: &[u8]) -> Vec<u8> {
    let n = factors.len() as u8;
    let mut bytes = vec![0xff, marker, 0, 8 + 3 * n, 8, 0, 8, 0, 24, n];
    for (i, factor) in factors.iter().enumerate() {
        bytes.extend([i as u8 + 1, *factor, 0]);
    }
    bytes
}

/// The header of a scan of the first parts.
fn scan(parts: u8) -> Vec<u8> {
    let mut bytes = vec![0xff, 0xda, 0, 6 + 2 * parts, parts];
    for i in 0..parts {
        bytes.extend([i + 1, 0]);
    }
    bytes.extend([0, 63, 0]);
    bytes
}

fn adobe(transform: u8) -> Vec<u8> {
    let mut bytes = vec![0xff, 0xee, 0, 14];
    bytes.extend(b"Adobe\0");
    bytes.extend([0, 0, 0, 0, 0, transform]);
    bytes
}

fn jpeg(segments: &[Vec<u8>]) -> Vec<u8> {
    let mut bytes = vec![0xff, 0xd8];
    for segment in segments {
        bytes.extend(segment);
    }
    bytes
}

fn png(color: u8, palette: u8) -> Vec<u8> {
    let mut bytes = vec![137, 80, 78, 71, 13, 10, 26, 10, 0, 0, 0, 13];
    bytes.extend(b"IHDR");
    bytes.extend([0, 0, 0, 40, 0, 0, 0, 40, 8, color, 0, 0, 0, 1, 2, 3, 4]);
    bytes.extend([0, 0, 0, palette]);
    bytes.extend(b"PLTE");
    bytes.extend(vec![0; palette as usize + 4]);
    bytes
}

#[test]
fn ordinary_frames_can_be_decoded() {
    assert!(is_decodable(&[]));
    assert!(is_decodable(b"no image"));
    for marker in [0xc0, 0xc1, 0xc2] {
        assert!(is_decodable(&jpeg(&[frame(marker, &[0x11]), scan(1)])));
        assert!(is_decodable(&jpeg(&[frame(marker, &[0x22, 0x11, 0x11]), scan(1)])));
        assert!(is_decodable(&jpeg(&[frame(marker, &[0x21, 0x11, 0x11]), scan(3)])));
        assert!(is_decodable(&jpeg(&[frame(marker, &[0x11, 0x11, 0x11, 0x11]), scan(4)])));
    }
}

#[test]
fn frames_with_a_coarse_first_part_cannot() {
    let factors = [0x11, 0x22, 0x22];
    assert!(!is_decodable(&jpeg(&[frame(0xc2, &factors), scan(3)])));
    assert!(is_decodable(&jpeg(&[frame(0xc0, &factors), scan(3)])));
    assert!(!is_decodable(&jpeg(&[frame(0xc0, &factors), scan(1)])));
    let wide = [0x11, 0x21, 0x21];
    assert!(is_decodable(&jpeg(&[frame(0xc2, &wide), scan(1)])));
    assert!(!is_decodable(&jpeg(&[frame(0xc0, &wide), scan(2)])));
    assert!(is_decodable(&frame(0xc2, &factors)));
}

#[test]
fn an_adobe_segment_has_to_fit_the_frame() {
    assert!(!is_decodable(&jpeg(&[adobe(2), frame(0xc2, &[0x11, 0x11]), scan(2)])));
    assert!(is_decodable(&jpeg(&[adobe(1), frame(0xc2, &[0x11, 0x11]), scan(2)])));
    assert!(is_decodable(&jpeg(&[adobe(2), frame(0xc2, &[0x11]), scan(1)])));
    assert!(!is_decodable(&jpeg(&[frame(0xc2, &[0x11]), adobe(2), scan(1)])));
    let four = [0x22, 0x11, 0x11, 0x22];
    assert!(is_decodable(&jpeg(&[adobe(2), frame(0xc2, &four), scan(4)])));
    assert!(is_decodable(&jpeg(&[adobe(1), frame(0xc2, &four), scan(4)])));
    assert!(!is_decodable(&jpeg(&[frame(0xc2, &four), adobe(1), scan(4)])));
    assert!(is_decodable(&jpeg(&[frame(0xc0, &four), adobe(1), scan(4)])));
}

#[test]
fn a_palette_is_made_of_whole_colours() {
    assert!(is_decodable(&png(3, 3)));
    assert!(is_decodable(&png(3, 6)));
    assert!(!is_decodable(&png(3, 4)));
    assert!(!is_decodable(&png(3, 5)));
    assert!(is_decodable(&png(2, 4)));
}

#[test]
fn a_file_that_cannot_be_decoded_is_an_error() {
    for bytes in [
        jpeg(&[frame(0xc2, &[0x11, 0x22, 0x22]), scan(3)]),
        jpeg(&[frame(0xc2, &[0x22, 0x11, 0x11]), scan(3)]),
        png(3, 4),
        b"GIF89a".to_vec(),
        b"II*\0".to_vec(),
    ] {
        let file = ImageFile { path: "/tmp/x/a.jpg".into(), bytes };
        let error = parse_layout_images(LAYOUT, "/tmp/x", &vec![file]).err().unwrap();
        assert_eq!(error.message, "Bild konnte nicht dekodiert werden: /tmp/x/a.jpg");
    }
}

#[test]
fn a_jpeg_file_becomes_a_png_image() {
    let mut bytes = std::io::Cursor::new(Vec::new());
    image::DynamicImage::new_rgb8(64, 48)
        .write_to(&mut bytes, image::ImageFormat::Jpeg)
        .unwrap();
    let file = ImageFile { path: "/tmp/x/a.jpg".into(), bytes: bytes.into_inner() };
    assert!(is_decodable(&file.bytes));
    let found = parse_layout_images(LAYOUT, "/tmp/x", &vec![file]).unwrap();
    assert_eq!(found.len(), 1);
    assert!(found[0].data.starts_with("iVBORw0KGgo"));
}

#[test]
fn a_small_picture_is_left_out() {
    let mut bytes = std::io::Cursor::new(Vec::new());
    image::DynamicImage::new_luma8(31, 48)
        .write_to(&mut bytes, image::ImageFormat::Jpeg)
        .unwrap();
    let file = ImageFile { path: "/tmp/x/a.jpg".into(), bytes: bytes.into_inner() };
    assert!(parse_layout_images(LAYOUT, "/tmp/x", &vec![file]).unwrap().is_empty());
}

#[test]
fn without_images_an_open_item_is_no_error() {
    let boq = BillOfQuantities::new("lv.pdf");
    let xml = "<Item ID=\"1\">";
    assert_eq!(inject_pdf_pngs(xml, &Vec::new(), &boq).unwrap(), (xml.to_owned(), 0));
}

#[test]
fn marks_stand_behind_the_start_tags_of_items() {
    let mut boq = BillOfQuantities::new("lv.pdf");
    boq.roots.push(Node {
        positions: vec![
            Position { price_only: true, ..Position::default() },
            Position { provisional: true, ..Position::default() },
            Position::default(),
        ],
        ..Node::default()
    });
    let xml = "<Itemlist><Item_><Itemä><Item\n a=\"1\"></Item><Item></Item><Item></Item></Itemlist><Item ";
    let marks = "<Provis>WithoutTotal</Provis><LumpSumItem>Yes</LumpSumItem>";
    let (once, count) = apply_to_xml(xml, &boq).unwrap();
    assert_eq!(count, 2);
    assert_eq!(
        once,
        format!("<Itemlist><Item_><Itemä><Item\n a=\"1\">{marks}</Item><Item>{marks}</Item><Item></Item></Itemlist><Item ")
    );
    assert_eq!(apply_to_xml(&once, &boq).unwrap(), (once.clone(), 0));
}

#[test]
fn normalized_texts_stay_as_they_are() {
    let once = normalize("\u{a0} Putz \t\u{a0}und\n Farbe  ");
    assert_eq!(once, "Putz und Farbe");
    assert_eq!(normalize(&once), once);
}
