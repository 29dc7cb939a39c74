use base64::Engine;
use pdf_maldives_be::imaging::{
    encode_data_uri, jpeg_data_uri, page_image_data_uri, region_data_uri, MAX_IMAGE_SIDE, MIN_PAGE_IMAGE_SIDE,
    MIN_REGION_SIDE,
};

const PREFIX: &str = "data:image/jpeg;base64,";

fn gradient(w: u32, h: u32) -> Vec<u8> {
    let mut v = Vec::with_capacity((w * h * 3) as usize);
    for y in 0..h {
        for x in 0..w {
            v.push((x % 256) as u8);
            v.push((y % 256) as u8);
            v.push(((x + y) % 256) as u8);
        }
    }
    v
}

fn decoded_size(uri: &str) -> (u32, u32) {
    assert!(uri.starts_with(PREFIX));
    let bytes = base64::engine::general_purpose::STANDARD.decode(&uri[PREFIX.len()..]).unwrap();
    assert_eq!(&bytes[..2], &[0xFF, 0xD8]);
    let img = image::load_from_memory(&bytes).unwrap();
    (img.width(), img.height())
}

#[test]
fn limits() {
    assert_eq!(MAX_IMAGE_SIDE, 1200);
    assert_eq!(MIN_PAGE_IMAGE_SIDE, 50);
    assert_eq!(MIN_REGION_SIDE, 10);
}

#[test]
fn small_page_images_are_skipped() {
    assert!(page_image_data_uri(49, 80, &gradient(49, 80)).is_none());
    assert!(page_image_data_uri(80, 10, &gradient(80, 10)).is_none());
}

#[test]
fn page_image_becomes_jpeg_data_uri() {
    let uri = page_image_data_uri(60, 50, &gradient(60, 50)).unwrap();
    assert_eq!(decoded_size(&uri), (60, 50));
}

#[test]
fn large_images_are_scaled_down() {
    let uri = encode_data_uri(1300, 100, &gradient(1300, 100)).unwrap();
    let (w, h) = decoded_size(&uri);
    assert_eq!(w, 1200);
    assert!(h <= 100 && h > 0);
}

#[test]
fn regions_are_clipped_to_the_image() {
    let px = gradient(100, 100);
    assert!(region_data_uri(100, 100, &px, 95, 0, 20, 20).is_none());
    assert!(region_data_uri(100, 100, &px, 200, 200, 20, 20).is_none());
    let uri = region_data_uri(100, 100, &px, 10, 10, 30, 20).unwrap();
    assert_eq!(decoded_size(&uri), (30, 20));
    let uri = region_data_uri(100, 100, &px, 90, 90, 50, 50).unwrap();
    assert_eq!(decoded_size(&uri), (10, 10));
}

#[test]
fn jpeg_bytes_become_base64_uri() {
    assert_eq!(jpeg_data_uri(None), None);
    assert_eq!(jpeg_data_uri(Some(vec![])).unwrap(), "data:image/jpeg;base64,");
    assert_eq!(jpeg_data_uri(Some(vec![0xFF, 0xD8, 0xFF])).unwrap(), "data:image/jpeg;base64,/9j/");
    assert_eq!(jpeg_data_uri(Some(b"Ma".to_vec())).unwrap(), "data:image/jpeg;base64,TWE=");
}

#[test]
fn large_page_images_and_regions_are_capped() {
    let uri = page_image_data_uri(1300, 60, &gradient(1300, 60)).unwrap();
    let (w, h) = decoded_size(&uri);
    assert_eq!(w, MAX_IMAGE_SIDE);
    assert!(h > 0 && h <= 60);
    let uri = region_data_uri(1500, 40, &gradient(1500, 40), 0, 0, 1500, 40).unwrap();
    let (w, h) = decoded_size(&uri);
    assert_eq!(w, MAX_IMAGE_SIDE);
    assert!(h > 0 && h <= 40);
}
