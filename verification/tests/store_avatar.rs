use fo_meta_server::store::{Root, VersionedError};
use fo_meta_server::avatar::{parse_auth, parse_data_url, save_image, show_avatar,
    upload_avatar, Auth, AvatarUploadError, VersionSecret};
use fo_meta_server::bridge::Bridge;
use fo_meta_server::protocol::MetaServerToGameServer;
use base64::Engine;

fn temp_root() -> Root {
    let db = sled::Config::new().temporary(true).open().expect("temporary sled db");
    Root::new(db)
}

fn png_bytes(w: u32, h: u32) -> Vec<u8> {
    let img = image::DynamicImage::ImageRgb8(image::RgbImage::new(w, h));
    let mut cursor = std::io::Cursor::new(Vec::new());
    img.write_to(&mut cursor, image::ImageFormat::Png).expect("encode png");
    cursor.into_inner()
}

fn data_url(bytes: &[u8]) -> Vec<u8> {
    let mut payload = b"data:image/png;base64,".to_vec();
    payload.extend_from_slice(
        base64::engine::general_purpose::STANDARD.encode(bytes).as_bytes(),
    );
    payload
}

#[test]
fn never_written_character_is_not_found() {
    let root = temp_root();
    let trunk = root.trunk(17, None);
    assert!(matches!(trunk.get_image(&root, Some(1)), Err(VersionedError::NotFound)));
    assert!(matches!(trunk.get_image(&root, None), Err(VersionedError::NotFound)));
    let pinned = root.trunk(17, Some(3));
    assert!(matches!(pinned.get_image(&root, Some(1)), Err(VersionedError::NotFound)));
}

#[test]
fn writes_increase_versions_and_never_reuse_secrets() {
    let mut root = temp_root();
    let trunk = root.trunk(1, None);
    let mut seen = Vec::new();
    for round in 1..=5u32 {
        let leaf = trunk.set_image(&mut root, vec![round as u8; 8]).expect("write");
        assert_eq!(leaf.ver, round);
        let secret = leaf.secret.expect("a fresh write always carries a secret");
        assert!(!seen.contains(&secret), "secret reused across versions");
        seen.push(secret);
    }
}

#[test]
fn read_back_requires_the_exact_secret() {
    let mut root = temp_root();
    let trunk = root.trunk(7, None);
    let data = vec![1, 2, 3, 4, 5, 6, 7, 8];
    let leaf = trunk.set_image(&mut root, data.clone()).expect("write");
    let secret = leaf.secret.unwrap();

    // The right secret returns exactly the written bytes.
    let got = trunk.get_image(&root, Some(secret)).expect("read");
    assert_eq!(got.ver, leaf.ver);
    assert_eq!(got.data, data);

    // A wrong secret and a missing secret are both denied, never public.
    assert!(matches!(trunk.get_image(&root, Some(secret.wrapping_add(1))),
        Err(VersionedError::Denied)));
    assert!(matches!(trunk.get_image(&root, None), Err(VersionedError::Denied)));
}

#[test]
fn old_versions_stay_readable_under_their_own_secret() {
    let mut root = temp_root();
    let trunk = root.trunk(3, None);
    let first = trunk.set_image(&mut root, vec![0xAA; 16]).expect("first write");
    let second = trunk.set_image(&mut root, vec![0xBB; 16]).expect("second write");
    assert_eq!(first.ver, 1);
    assert_eq!(second.ver, 2);

    // Latest resolves to the second write.
    let latest = trunk.get_image(&root, second.secret).expect("latest");
    assert_eq!(latest.ver, 2);
    assert_eq!(latest.data, vec![0xBB; 16]);

    // The first version still answers to its own secret, and only to it.
    let pinned = root.trunk(3, Some(1));
    let old = pinned.get_image(&root, first.secret).expect("old version");
    assert_eq!(old.ver, 1);
    assert_eq!(old.data, vec![0xAA; 16]);
    assert!(matches!(pinned.get_image(&root, second.secret), Err(VersionedError::Denied)));
}

#[test]
fn stale_expected_version_conflicts() {
    let mut root = temp_root();
    let trunk = root.trunk(9, None);
    trunk.set_image(&mut root, vec![1; 16]).expect("first write");
    trunk.set_image(&mut root, vec![2; 16]).expect("second write");

    // A writer that still believes version 1 is latest must not write.
    let stale = root.trunk(9, Some(1));
    assert!(matches!(stale.set_image(&mut root, vec![3; 16]),
        Err(VersionedError::VersionConflict)));

    // A writer pinned to the true latest may.
    let current = root.trunk(9, Some(2));
    let leaf = current.set_image(&mut root, vec![3; 16]).expect("pinned write");
    assert_eq!(leaf.ver, 3);
}

#[test]
fn distinct_characters_never_disturb_each_other() {
    let mut root = temp_root();
    let left = root.trunk(100, None);
    let right = root.trunk(200, None);
    let a = left.set_image(&mut root, vec![0x11; 16]).expect("left write");
    let b = right.set_image(&mut root, vec![0x22; 16]).expect("right write");
    let a2 = left.set_image(&mut root, vec![0x33; 16]).expect("left write again");

    // Each character's history advanced independently.
    assert_eq!(a.ver, 1);
    assert_eq!(b.ver, 1);
    assert_eq!(a2.ver, 2);
    let got_b = right.get_image(&root, b.secret).expect("right read");
    assert_eq!(got_b.data, vec![0x22; 16]);
    let got_a = left.get_image(&root, a2.secret).expect("left read");
    assert_eq!(got_a.data, vec![0x33; 16]);
}

#[test]
fn parse_auth_accepts_exactly_24_hex_chars() {
    let auth = Auth { auth: Some("0102030405060708090a0b0c".to_string()) };
    let (bytes, upper) = parse_auth(&auth).expect("valid token");
    assert_eq!(bytes, vec![1, 2, 3, 4, 5, 6, 7, 8, 9, 10, 11, 12]);
    assert_eq!(upper, "0102030405060708090A0B0C");

    let auth = Auth { auth: Some("DeadBeefCafeBabe00112233".to_string()) };
    let (bytes, upper) = parse_auth(&auth).expect("mixed case token");
    assert_eq!(bytes, vec![0xDE, 0xAD, 0xBE, 0xEF, 0xCA, 0xFE, 0xBA, 0xBE, 0x00, 0x11, 0x22,
        0x33]);
    assert_eq!(upper, "DEADBEEFCAFEBABE00112233");

    assert!(parse_auth(&Auth { auth: None }).is_none());
    assert!(parse_auth(&Auth { auth: Some("0102".to_string()) }).is_none());
    assert!(parse_auth(&Auth { auth: Some("0102030405060708090a0b0g".to_string()) }).is_none());
    assert!(parse_auth(&Auth { auth: Some("0102030405060708090a0b0c0d".to_string()) })
        .is_none());
}

#[test]
fn data_url_frame_is_checked_strictly() {
    let good = data_url(&png_bytes(128, 128));
    assert!(parse_data_url(&good).is_ok());

    // No prefix at all.
    assert!(matches!(parse_data_url(&b"hello".to_vec()), Err(AvatarUploadError::DataUrl)));
    // A JPEG data URL is not accepted.
    let mut jpeg = b"data:image/jpg;base64,".to_vec();
    jpeg.extend_from_slice(&[b'A'; 32]);
    assert!(matches!(parse_data_url(&jpeg), Err(AvatarUploadError::DataUrl)));
    // Prefix alone, no body.
    assert!(matches!(parse_data_url(&b"data:image/png;base64,".to_vec()),
        Err(AvatarUploadError::DataUrl)));
    // Body too short.
    let mut short = b"data:image/png;base64,".to_vec();
    short.extend_from_slice(&[b'A'; 8]);
    assert!(matches!(parse_data_url(&short), Err(AvatarUploadError::DataLength(8))));
    // Body too long.
    let mut long = b"data:image/png;base64,".to_vec();
    long.extend_from_slice(&vec![b'A'; 131073]);
    assert!(matches!(parse_data_url(&long), Err(AvatarUploadError::DataLength(131073))));
}

#[test]
fn save_image_normalizes_and_stores() {
    let mut root = temp_root();
    let b64 = base64::engine::general_purpose::STANDARD.encode(png_bytes(128, 128));
    let leaf = save_image(&mut root, 5, &b64.into_bytes()).expect("save");
    assert_eq!(leaf.ver, 1);

    // What was stored is a readable 128x128 PNG.
    let got = root.trunk(5, None).get_image(&root, leaf.secret).expect("read back");
    let img = image::load_from_memory_with_format(&got.data, image::ImageFormat::Png)
        .expect("stored bytes are a PNG");
    assert_eq!((img.width(), img.height()), (128, 128));
}

#[test]
fn save_image_rejects_bad_payloads() {
    let mut root = temp_root();
    // Not base64.
    assert!(matches!(save_image(&mut root, 5, &b"!!!not-base64!!!".to_vec()),
        Err(AvatarUploadError::Base64)));
    // Base64, but not a PNG.
    let b64 = base64::engine::general_purpose::STANDARD.encode(b"just some plain bytes");
    assert!(matches!(save_image(&mut root, 5, &b64.into_bytes()),
        Err(AvatarUploadError::ImageLoad)));
    // A PNG of the wrong size.
    let b64 = base64::engine::general_purpose::STANDARD.encode(png_bytes(64, 32));
    assert!(matches!(save_image(&mut root, 5, &b64.into_bytes()),
        Err(AvatarUploadError::ImageSize(64, 32))));
    // Nothing got stored by the failures.
    assert!(matches!(root.trunk(5, None).get_image(&root, Some(1)),
        Err(VersionedError::NotFound)));
}

#[test]
fn upload_pushes_the_new_leaf_to_an_established_link() {
    let mut root = temp_root();
    let mut bridge = Bridge::new();
    let id = bridge.accept();
    bridge.on_handshake(id, &[0xBA, 0xBA, 0x06, 0x00]).expect("handshake");

    let payload = data_url(&png_bytes(128, 128));
    let leaf = upload_avatar(&mut root, &mut bridge, 77, &payload).expect("upload");
    let secret = leaf.secret.expect("fresh secret");

    // The push is observable on the authoritative connection's queue.
    let queued = bridge.connections[id].outbound.last().expect("one push");
    assert!(matches!(queued,
        MetaServerToGameServer::UpdateCharLeaf { id: 77, ver, secret: s }
            if *ver == leaf.ver && *s == secret));
}

#[test]
fn upload_without_a_link_still_stores() {
    let mut root = temp_root();
    let mut bridge = Bridge::new();
    let payload = data_url(&png_bytes(128, 128));
    let leaf = upload_avatar(&mut root, &mut bridge, 8, &payload).expect("upload");
    let got = root.trunk(8, None).get_image(&root, leaf.secret).expect("read back");
    assert_eq!(got.ver, leaf.ver);
    // Nothing was queued anywhere: no connection exists.
    assert!(bridge.connections.is_empty());
}

#[test]
fn show_requires_some_secret_before_anything_else() {
    let mut root = temp_root();
    let leaf = root.trunk(4, None).set_image(&mut root, vec![9; 16]).expect("write");

    // No secret at all: refused outright, even for versions that exist.
    assert!(matches!(show_avatar(&root, 4, &VersionSecret { ver: None, secret: None }),
        Err(VersionedError::Denied)));
    // The right secret serves the latest version.
    let got = show_avatar(&root, 4, &VersionSecret { ver: None, secret: leaf.secret })
        .expect("show");
    assert_eq!(got.ver, 1);
    assert_eq!(got.data, vec![9; 16]);
    // A pinned version that does not exist is not found.
    assert!(matches!(show_avatar(&root, 4, &VersionSecret { ver: Some(2), secret: leaf.secret }),
        Err(VersionedError::NotFound)));
}

#[test]
fn stored_avatar_is_forced_to_rgb() {
    let mut root = temp_root();
    // An RGBA source: normalization must re-encode it, not store it as-is.
    let rgba = image::DynamicImage::ImageRgba8(image::RgbaImage::new(128, 128));
    let mut cursor = std::io::Cursor::new(Vec::new());
    rgba.write_to(&mut cursor, image::ImageFormat::Png).expect("encode png");
    let b64 = base64::engine::general_purpose::STANDARD.encode(cursor.into_inner());

    let leaf = save_image(&mut root, 6, &b64.into_bytes()).expect("save");
    let got = root.trunk(6, None).get_image(&root, leaf.secret).expect("read back");
    let img = image::load_from_memory_with_format(&got.data, image::ImageFormat::Png)
        .expect("stored bytes are a PNG");
    assert_eq!(img.color(), image::ColorType::Rgb8);
}
