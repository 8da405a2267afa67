use visualoc_core::errors::Error;
use visualoc_core::images::{
    accepts_image_bytes, archive_path, content_type_for, dump_file_path, generate_id, image_path,
    is_allowed_image_ext, plan_resize, resized_dimensions, split_filename, temp_dir, ImageSize,
};

#[test]
fn image_paths_follow_the_layout() {
    assert_eq!(
        image_path("tenant1", "item9", "png", ImageSize::Large),
        "/app/users/tenant1/images/item9.png"
    );
    assert_eq!(
        image_path("tenant1", "item9", "png", ImageSize::Medium),
        "/app/users/tenant1/images/medium/item9.png"
    );
    assert_eq!(
        image_path("tenant1", "item9", "png", ImageSize::Small),
        "/app/users/tenant1/images/small/item9.png"
    );
    assert_eq!(temp_dir("tenant1"), "/app/users/tenant1/temp");
    assert_eq!(dump_file_path("tenant1"), "/app/users/tenant1/temp/dump_file.sql");
    assert_eq!(archive_path("tenant1"), "/app/users/tenant1/backup.zip");
}

#[test]
fn content_types_match_extensions() {
    assert_eq!(content_type_for("png").unwrap(), "image/png");
    assert_eq!(content_type_for("jpg").unwrap(), "image/jpeg");
    assert_eq!(content_type_for("jpeg").unwrap(), "image/jpeg");
    assert_eq!(content_type_for("webp").unwrap(), "image/webp");
    assert_eq!(content_type_for("gif").unwrap(), "image/gif");
    assert_eq!(content_type_for("bmp"), Err(Error::Validation));
}

#[test]
fn filename_split_requires_one_dot() {
    assert_eq!(
        split_filename("item1.png"),
        Some(("item1".to_string(), "png".to_string()))
    );
    assert_eq!(split_filename("noext"), None);
    assert_eq!(split_filename("a.b.c"), None);
}

#[test]
fn allowed_extensions() {
    for ext in ["webp", "jpg", "png", "jpeg", "gif"] {
        assert!(is_allowed_image_ext(ext));
    }
    assert!(!is_allowed_image_ext("svg"));
    assert!(!is_allowed_image_ext(""));
}

#[test]
fn signature_gate_accepts_real_magic_bytes() {
    let jpeg = [0xFFu8, 0xD8, 0xFF, 0xE0, 0, 0];
    let png = [0x89u8, 0x50, 0x4E, 0x47, 0x0D, 0x0A, 0x1A, 0x0A];
    let mut webp = b"RIFF????WEBP".to_vec();
    webp.extend_from_slice(&[0u8; 8]);
    assert!(accepts_image_bytes(&jpeg));
    assert!(accepts_image_bytes(&png));
    assert!(accepts_image_bytes(&webp));
    assert!(!accepts_image_bytes(b"GIF89a trailer"));
    assert!(!accepts_image_bytes(b""));
    assert!(!accepts_image_bytes(b"plain text"));
}

#[test]
fn resize_keeps_aspect_ratio() {
    // landscape: the width becomes the target edge
    assert_eq!(resized_dimensions(800, 600, 400), (400, 300));
    assert_eq!(resized_dimensions(800, 600, 150), (150, 112));
    // portrait: the height becomes the target edge
    assert_eq!(resized_dimensions(600, 800, 400), (300, 400));
    // square counts as landscape
    assert_eq!(resized_dimensions(500, 500, 150), (150, 150));
}

#[test]
fn plan_resize_reads_real_dimensions() {
    // a real 8x4 PNG, encoded in memory
    let img = image::DynamicImage::new_rgb8(8, 4);
    let mut bytes: Vec<u8> = Vec::new();
    img.write_to(&mut std::io::Cursor::new(&mut bytes), image::ImageFormat::Png).unwrap();
    let (small, medium) = plan_resize(&bytes).unwrap();
    assert_eq!(small, (150, 75));
    assert_eq!(medium, (400, 200));
    assert!(plan_resize(b"not an image").is_none());
}

#[test]
fn generated_ids_are_wire_safe() {
    let a = generate_id();
    let b = generate_id();
    assert_eq!(a.len(), 36);
    assert!(a.chars().all(|c| c.is_ascii_hexdigit() || c == '-'));
    assert!(!a.contains('@'));
    assert_ne!(a, b);
}
