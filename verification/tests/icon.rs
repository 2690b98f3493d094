use std::io::Cursor;

use base64::{engine::general_purpose::STANDARD, Engine as _};
use image::{DynamicImage, ImageBuffer, ImageFormat, Rgba};
use multiboot::icon::{image_load_message, ImageLoadError, decode, decode_menu_image, fit_menu_size, menu_icon_of, png_data_url_of, icon_source_bytes, normalize_data_url, MAX_SOURCE_BYTES};

const PNG_DATA_URL_PREFIX: &str = "data:image/png;base64,";

fn png_bytes(width: u32, height: u32) -> Vec<u8> {
    let image = DynamicImage::ImageRgba8(ImageBuffer::from_pixel(
        width,
        height,
        Rgba([32, 64, 128, 128]),
    ));
    let mut bytes = Cursor::new(Vec::new());
    image.write_to(&mut bytes, ImageFormat::Png).unwrap();
    bytes.into_inner()
}

fn test_data_url(width: u32, height: u32) -> String {
    format!("data:image/png;base64,{}", STANDARD.encode(png_bytes(width, height)))
}

#[test]
fn normalizes_to_png_and_preserves_aspect_ratio() {
    let normalized = normalize_data_url(&test_data_url(128, 64)).unwrap();
    assert!(normalized.starts_with(PNG_DATA_URL_PREFIX));
    let decoded = decode(&normalized).unwrap();
    assert_eq!((decoded.width(), decoded.height()), (32, 16));
}

#[test]
fn produces_owned_rgba_for_tauri_menu() {
    let image = decode_menu_image(&test_data_url(16, 24)).unwrap();
    assert_eq!((image.width, image.height), (16, 24));
    assert_eq!(image.rgba.len(), 16 * 24 * 4);
}

#[test]
fn rejects_invalid_data_url_without_panicking() {
    assert!(normalize_data_url("data:image/png;base64,not-valid").is_err());
    assert!(normalize_data_url("/Users/example/icon.png").is_err());
}

#[test]
fn data_url_errors_name_the_problem() {
    assert_eq!(
        normalize_data_url("/Users/example/icon.png").unwrap_err(),
        "图标必须是 Data URL"
    );
    assert_eq!(
        normalize_data_url("data:text/plain;base64,aGVsbG8=").unwrap_err(),
        "图标必须是 Base64 图片 Data URL"
    );
    assert_eq!(
        normalize_data_url("data:image/png,aGVsbG8=").unwrap_err(),
        "图标必须是 Base64 图片 Data URL"
    );
    let bad = normalize_data_url("data:image/png;base64,not-valid").unwrap_err();
    assert!(bad.starts_with("Base64 解码失败："), "{bad}");
    let not_image = normalize_data_url("data:image/png;base64,aGVsbG8=").unwrap_err();
    assert!(not_image.starts_with("图片解码失败："), "{not_image}");
}

#[test]
fn the_first_comma_ends_the_metadata() {
    // The payload may not contain a comma: Base64 has none.
    let bad = icon_source_bytes("data:image/png;base64,aGVs,bG8=").unwrap_err();
    assert!(bad.starts_with("Base64 解码失败："), "{bad}");
    assert_eq!(
        icon_source_bytes("data:image/gif;base64,aGVsbG8=").unwrap(),
        b"hello".to_vec()
    );
}

#[test]
fn refuses_images_larger_than_eight_mib() {
    let large = vec![0u8; MAX_SOURCE_BYTES + 1];
    let url = format!("data:image/png;base64,{}", STANDARD.encode(&large));
    assert_eq!(
        icon_source_bytes(&url).unwrap_err(),
        "图标文件不能超过 8 MiB"
    );
    let exact = vec![0u8; MAX_SOURCE_BYTES];
    let url = format!("data:image/png;base64,{}", STANDARD.encode(&exact));
    assert_eq!(icon_source_bytes(&url).unwrap().len(), MAX_SOURCE_BYTES);
}

#[test]
fn small_images_keep_their_size_and_large_ones_fit_the_menu() {
    let small = decode(&normalize_data_url(&test_data_url(20, 30)).unwrap()).unwrap();
    assert_eq!((small.width(), small.height()), (20, 30));
    let tall = decode_menu_image(&test_data_url(40, 200)).unwrap();
    assert!(tall.width <= 32 && tall.height == 32);
}

#[test]
fn normalized_icons_carry_the_png_in_base64() {
    let normalized = normalize_data_url(&test_data_url(8, 8)).unwrap();
    let payload = &normalized[PNG_DATA_URL_PREFIX.len()..];
    let bytes = STANDARD.decode(payload).unwrap();
    assert_eq!(&bytes[..8], b"\x89PNG\r\n\x1a\n");
    // A normalised icon is accepted again as it stands.
    let again = normalize_data_url(&normalized).unwrap();
    assert!(again.starts_with(PNG_DATA_URL_PREFIX));
}

#[test]
fn fitting_scales_the_longer_side_to_the_menu_size() {
    let tall = decode(&test_data_url(40, 200)).unwrap();
    let fitted = fit_menu_size(tall);
    assert_eq!((fitted.width(), fitted.height()), (6, 32));
    let small = decode(&test_data_url(20, 30)).unwrap();
    let kept = fit_menu_size(small);
    assert_eq!((kept.width(), kept.height()), (20, 30));
}

fn png_header_size(bytes: &[u8]) -> (u32, u32) {
    assert_eq!(&bytes[..8], &[137, 80, 78, 71, 13, 10, 26, 10]);
    assert_eq!(&bytes[12..16], b"IHDR");
    (
        u32::from_be_bytes([bytes[16], bytes[17], bytes[18], bytes[19]]),
        u32::from_be_bytes([bytes[20], bytes[21], bytes[22], bytes[23]]),
    )
}

#[test]
fn png_data_url_carries_the_fitted_size_in_its_header() {
    let wide = decode(&test_data_url(128, 64)).unwrap();
    let url = png_data_url_of(wide).unwrap();
    let png = STANDARD.decode(&url[PNG_DATA_URL_PREFIX.len()..]).unwrap();
    assert_eq!(png_header_size(&png), (32, 16));
    let small = decode(&test_data_url(5, 7)).unwrap();
    let url = png_data_url_of(small).unwrap();
    let png = STANDARD.decode(&url[PNG_DATA_URL_PREFIX.len()..]).unwrap();
    assert_eq!(png_header_size(&png), (5, 7));
}

#[test]
fn menu_icons_have_the_fitted_size_and_four_bytes_a_pixel() {
    let icon = menu_icon_of(decode(&test_data_url(33, 33)).unwrap());
    assert_eq!((icon.width, icon.height), (32, 32));
    assert_eq!(icon.rgba.len(), 32 * 32 * 4);
    let icon = menu_icon_of(decode(&test_data_url(300, 10)).unwrap());
    assert_eq!((icon.width, icon.height), (32, 1));
}

#[test]
fn image_load_errors_name_the_failed_step() {
    assert_eq!(image_load_message(ImageLoadError::Format("x".to_string())), "无法识别图片格式：x");
    assert_eq!(image_load_message(ImageLoadError::Decode("y".to_string())), "图片解码失败：y");
}
