use ode::asset::AssetStore;
use ode::container::{
    asset_key_of_entry, detect_image_ext, extract_embedded_source, find_asset_ext,
    stored_uncompressed, OdeSource, PathProbe,
};
use ode::style::ImageSource;

const MISSING: PathProbe = PathProbe { is_dir: false, is_file: false, zip_magic: false };

#[test]
fn detect_source_directory() {
    let probe = PathProbe { is_dir: true, is_file: false, zip_magic: false };
    let source = OdeSource::detect("/tmp/some-design", probe);
    assert!(matches!(source, OdeSource::Unpacked(_)));
}

#[test]
fn detect_source_stdin() {
    let source = OdeSource::detect("-", MISSING);
    assert!(matches!(source, OdeSource::Stdin));
}

#[test]
fn detect_source_legacy_json() {
    let source = OdeSource::detect("/tmp/nonexistent-test-file.ode.json", MISSING);
    assert!(matches!(source, OdeSource::LegacyJson(_)));
}

#[test]
fn detect_source_packed_ode() {
    let probe = PathProbe { is_dir: false, is_file: true, zip_magic: true };
    let source = OdeSource::detect("/tmp/test.ode", probe);
    assert!(matches!(source, OdeSource::Packed(_)));
}

#[test]
fn detect_source_by_suffix_when_missing() {
    assert!(matches!(OdeSource::detect("out/", MISSING), OdeSource::Unpacked(p) if p == "out/"));
    assert!(matches!(OdeSource::detect("x.ode", MISSING), OdeSource::Packed(p) if p == "x.ode"));
    let file = PathProbe { is_dir: false, is_file: true, zip_magic: false };
    assert!(matches!(OdeSource::detect("x.ode", file), OdeSource::LegacyJson(_)));
}

#[test]
fn image_ext_from_magic_bytes() {
    assert_eq!(detect_image_ext(&[0x89, 0x50, 0x4E, 0x47, 0x0D, 0x0A, 0x1A, 0x0A, 0]), "png");
    assert_eq!(detect_image_ext(&[0xFF, 0xD8, 0xFF, 0xE0]), "jpg");
    assert_eq!(detect_image_ext(b"GIF89a"), "gif");
    assert_eq!(detect_image_ext(b"RIFF\0\0\0\0WEBP"), "webp");
    assert_eq!(detect_image_ext(b"hello"), "bin");
}

#[test]
fn asset_names() {
    assert_eq!(asset_key_of_entry("assets/abc.png"), Some("abc".to_string()));
    assert_eq!(asset_key_of_entry("document.json"), None);
    let linked = vec!["assets/abc.jpg".to_string(), "assets/def.png".to_string()];
    assert_eq!(find_asset_ext(&linked, "def"), Some("png".to_string()));
    assert_eq!(find_asset_ext(&linked, "xyz"), None);
    assert!(stored_uncompressed("png"));
    assert!(!stored_uncompressed("json"));
}

#[test]
fn embedded_image_moves_into_store() {
    let mut store = AssetStore::new();
    let png = vec![0x89, 0x50, 0x4E, 0x47, 0x0D, 0x0A, 0x1A, 0x0A, 1, 2, 3];
    let hash = AssetStore::compute_hash(&png);
    let out = extract_embedded_source(ImageSource::Embedded { data: png.clone() }, &mut store);
    match out {
        ImageSource::Linked { path } => assert_eq!(path, format!("assets/{hash}.png")),
        ImageSource::Embedded { .. } => panic!("expected a linked source"),
    }
    assert_eq!(store.get_loaded(&hash).unwrap(), &png[..]);
    let linked = ImageSource::Linked { path: "assets/x.jpg".to_string() };
    match extract_embedded_source(linked, &mut store) {
        ImageSource::Linked { path } => assert_eq!(path, "assets/x.jpg"),
        ImageSource::Embedded { .. } => panic!("expected a linked source"),
    }
    assert_eq!(store.len(), 1);
}
