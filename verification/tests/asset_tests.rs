use ode::asset::{AssetEntry, AssetError, AssetStore};

#[test]
fn add_image_returns_hash_filename() {
    let mut store = AssetStore::new();
    let name = store.add_image(vec![0x89, 0x50, 0x4E, 0x47], "png");
    assert!(name.ends_with(".png"));
    assert_eq!(name.len(), "assets/".len() + 16 + ".png".len());
    assert!(name.starts_with("assets/"));
}

#[test]
fn add_same_image_deduplicates() {
    let mut store = AssetStore::new();
    let data = vec![1, 2, 3, 4, 5];
    let name1 = store.add_image(data.clone(), "png");
    let name2 = store.add_image(data, "png");
    assert_eq!(name1, name2);
    assert_eq!(store.len(), 1);
}

#[test]
fn get_image_returns_bytes() {
    let mut store = AssetStore::new();
    let data = vec![0x89, 0x50, 0x4E, 0x47];
    let name = store.add_image(data.clone(), "png");
    let hash = name.strip_prefix("assets/").unwrap().split('.').next().unwrap().to_string();
    let retrieved = store.get_image(&hash, None).unwrap();
    assert_eq!(retrieved, &data[..]);
}

#[test]
fn get_nonexistent_returns_error() {
    let mut store = AssetStore::new();
    assert!(store.get_image("nonexistent", None).is_err());
}

#[test]
fn hash_is_16_hex_chars() {
    let hash = AssetStore::compute_hash(&[1, 2, 3]);
    assert_eq!(hash.len(), 16);
    assert!(hash.chars().all(|c| c.is_ascii_hexdigit()));
}

#[test]
fn on_disk_lazy_loads_via_get_image() {
    let data = b"fake-png-data-for-test".to_vec();
    let hash = AssetStore::compute_hash(&data);
    let mut store = AssetStore::new();
    store.register_on_disk(hash.clone(), "/tmp/asset.png".to_string());
    assert!(store.get_loaded(&hash).is_none());
    assert_eq!(store.disk_path(&hash), Some("/tmp/asset.png".to_string()));
    let loaded = store.get_image(&hash, Some(Ok(data.clone()))).unwrap().to_vec();
    assert_eq!(loaded, data);
    assert_eq!(store.get_loaded(&hash).unwrap(), &data[..]);
}

#[test]
fn hash_is_first_eight_bytes_of_sha256() {
    // SHA-256 of the empty input starts with e3b0c44298fc1c14.
    assert_eq!(AssetStore::compute_hash(&[]), "e3b0c44298fc1c14");
    // SHA-256 of "abc" starts with ba7816bf8f01cfea.
    assert_eq!(AssetStore::compute_hash(b"abc"), "ba7816bf8f01cfea");
}

#[test]
fn add_image_path_uses_hash_and_extension() {
    let mut store = AssetStore::new();
    let name = store.add_image(b"abc".to_vec(), "jpg");
    assert_eq!(name, "assets/ba7816bf8f01cfea.jpg");
    assert!(!store.is_empty());
}

#[test]
fn disk_read_failure_is_io_error() {
    let mut store = AssetStore::new();
    store.register_on_disk("abcd".to_string(), "/missing.png".to_string());
    match store.get_image("abcd", Some(Err("no such file".to_string()))) {
        Err(AssetError::Io(m)) => assert_eq!(m, "no such file"),
        _ => panic!("expected an input/output error"),
    }
    assert!(matches!(store.get_image("zzzz", None), Err(AssetError::NotFound(_))));
}

#[test]
fn iter_lists_every_entry() {
    let mut store = AssetStore::new();
    store.add_image_with_hash("h1".to_string(), vec![1]);
    store.register_on_disk("h2".to_string(), "/p".to_string());
    let entries = store.iter();
    assert_eq!(entries.len(), 2);
    assert!(entries.iter().any(|(k, e)| *k == "h1" && matches!(e, AssetEntry::Loaded(d) if d == &vec![1u8])));
    assert!(entries.iter().any(|(k, e)| *k == "h2" && matches!(e, AssetEntry::OnDisk(p) if p == "/p")));
    assert_eq!(store.on_disk_entries(), vec![("h2".to_string(), "/p".to_string())]);
}

#[test]
fn asset_error_messages() {
    assert_eq!(AssetError::NotFound("k".to_string()).message(), "asset not found: k");
    assert_eq!(AssetError::Io("denied".to_string()).message(), "io error: denied");
}
