use isaac_unlocker::catalog::{
    achievement_icons, assemble_icons, catalog_order, RgbaPixels, decode_image, item_icons, path_number, CatalogError, EmbeddedFile,
};

fn png(width: u32, height: u32, px: [u8; 4]) -> Vec<u8> {
    let img = image::RgbaImage::from_pixel(width, height, image::Rgba(px));
    let mut out = std::io::Cursor::new(Vec::new());
    img.write_to(&mut out, image::ImageFormat::Png).unwrap();
    out.into_inner()
}

fn file(path: &str, contents: Vec<u8>) -> EmbeddedFile {
    EmbeddedFile { path: path.to_string(), contents }
}

#[test]
fn path_number_strips_folder_and_extension() {
    assert_eq!(path_number("achievements/12.png", "achievements/"), Some(12));
    assert_eq!(path_number("items/007.png", "items/"), Some(7));
    assert_eq!(path_number("items/7.jpg", "items/"), None);
    assert_eq!(path_number("achievements/7.png", "items/"), None);
    assert_eq!(path_number("items/.png", "items/"), None);
    assert_eq!(path_number("items/x.png", "items/"), None);
}

#[test]
fn decode_image_reads_png_pixels() {
    let px = decode_image(&png(2, 1, [1, 2, 3, 4])).unwrap();
    assert_eq!((px.width, px.height), (2, 1));
    assert_eq!(px.pixels, vec![1, 2, 3, 4, 1, 2, 3, 4]);
    let big = decode_image(&png(3, 5, [9, 9, 9, 9])).unwrap();
    assert_eq!(big.pixels.len(), 4 * 3 * 5);
}

#[test]
fn decode_image_gives_the_same_result_twice() {
    let bytes = png(2, 2, [7, 8, 9, 10]);
    let a = decode_image(&bytes).unwrap();
    let b = decode_image(&bytes).unwrap();
    assert_eq!((a.width, a.height, a.pixels), (b.width, b.height, b.pixels));
}

fn bmp(width: u32, height: u32, px: [u8; 4]) -> Vec<u8> {
    let img = image::RgbaImage::from_pixel(width, height, image::Rgba(px));
    let mut out = std::io::Cursor::new(Vec::new());
    img.write_to(&mut out, image::ImageFormat::Bmp).unwrap();
    out.into_inner()
}

#[test]
fn decode_image_guesses_the_format() {
    let px = decode_image(&bmp(2, 2, [5, 6, 7, 255])).unwrap();
    assert_eq!((px.width, px.height), (2, 2));
    assert_eq!(&px.pixels[..4], &[5, 6, 7, 255]);
}

#[test]
fn decode_image_rejects_other_bytes() {
    assert!(decode_image(&vec![0, 1, 2, 3]).is_none());
}

#[test]
fn achievements_are_ordered_by_number_and_paired_with_lines() {
    let files = vec![
        file("achievements/10.png", png(1, 1, [10, 0, 0, 255])),
        file("achievements/2.png", png(1, 1, [2, 0, 0, 255])),
        file("achievements/1.png", png(1, 1, [1, 0, 0, 255])),
    ];
    let icons = achievement_icons(&files, "One\nTwo\nTen\n", "first\r\nsecond\r\ntenth").unwrap();
    assert_eq!(icons.len(), 3);
    let reds: Vec<u8> = icons.iter().map(|i| i.image.pixels[0]).collect();
    assert_eq!(reds, vec![1, 2, 10]);
    let names: Vec<&str> = icons.iter().map(|i| i.name.as_str()).collect();
    assert_eq!(names, vec!["One", "Two", "Ten"]);
    let descriptions: Vec<&str> = icons.iter().map(|i| i.description.as_str()).collect();
    assert_eq!(descriptions, vec!["first", "second", "tenth"]);
}

#[test]
fn catalog_stops_at_the_shortest_text() {
    let files = vec![
        file("achievements/1.png", png(1, 1, [1, 0, 0, 255])),
        file("achievements/2.png", png(1, 1, [2, 0, 0, 255])),
    ];
    let icons = achievement_icons(&files, "One\nTwo", "only one").unwrap();
    assert_eq!(icons.len(), 1);
    assert_eq!(icons[0].name, "One");
}

#[test]
fn items_have_empty_descriptions() {
    let files = vec![
        file("items/2.png", png(1, 1, [2, 0, 0, 255])),
        file("items/1.png", png(1, 1, [1, 0, 0, 255])),
    ];
    let icons = item_icons(&files, "Sad Onion\nInner Eye\n").unwrap();
    assert_eq!(icons.len(), 2);
    assert_eq!(icons[0].name, "Sad Onion");
    assert_eq!(icons[0].image.pixels[0], 1);
    assert_eq!(icons[1].description, "");
}

#[test]
fn a_file_without_number_is_refused() {
    let files = vec![
        file("items/1.png", png(1, 1, [1, 0, 0, 255])),
        file("items/two.png", png(1, 1, [2, 0, 0, 255])),
    ];
    assert_eq!(item_icons(&files, "a\nb").err(), Some(CatalogError::BadFileName(1)));
}

#[test]
fn a_single_file_needs_no_number() {
    let files = vec![file("items/two.png", png(1, 1, [2, 0, 0, 255]))];
    let icons = item_icons(&files, "a").unwrap();
    assert_eq!(icons.len(), 1);
}

#[test]
fn an_undecodable_file_is_refused_by_rank() {
    let files = vec![
        file("items/5.png", vec![1, 2, 3]),
        file("items/1.png", png(1, 1, [1, 0, 0, 255])),
    ];
    assert_eq!(item_icons(&files, "a\nb").err(), Some(CatalogError::UndecodableImage(1)));
}

#[test]
fn an_undecodable_file_beyond_the_names_is_not_read() {
    let files = vec![
        file("items/5.png", vec![1, 2, 3]),
        file("items/1.png", png(1, 1, [1, 0, 0, 255])),
    ];
    assert_eq!(item_icons(&files, "a").unwrap().len(), 1);
}

#[test]
fn assemble_pairs_decoded_images_with_lines() {
    let img = |r: u8| Some(RgbaPixels { width: 1, height: 1, pixels: vec![r, 0, 0, 255] });
    let icons = assemble_icons(vec![img(1), img(2), None], "a\nb", Some("x\ny\nz")).unwrap();
    assert_eq!(icons.len(), 2);
    assert_eq!(icons[1].image.pixels[0], 2);
    assert_eq!(icons[1].description, "y");
    let err = assemble_icons(vec![img(1), None, img(3)], "a\nb\nc", None).err();
    assert_eq!(err, Some(CatalogError::UndecodableImage(1)));
}

#[test]
fn catalog_order_sorts_by_number() {
    let files = vec![
        file("items/3.png", vec![]),
        file("items/-1.png", vec![]),
        file("items/3.png", vec![]),
    ];
    assert_eq!(catalog_order(&files, "items/"), Ok(vec![1, 0, 2]));
}
