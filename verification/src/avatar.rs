//! Avatar upload and access: the hex auth token parser, the data-URL and
//! size checks on uploads, and the pipeline that normalizes a payload and
//! stores it as the character's next avatar version.
use vstd::prelude::*;
use vstd::utf8::{encode_utf8_valid_utf8, encode_utf8_decode_utf8, is_ascii_chars,
    is_ascii_chars_encode_utf8};
use vstd::slice::slice_to_vec;
use base64::Engine;
use crate::bridge::Bridge;
use crate::codec::string_from_utf8;
use crate::store::{spec_get_image, spec_set_image_ok, other_chars_unchanged, Leaf, LeafModel,
    Root, VersionedError};

verus! {

/// Query parameters of an avatar fetch: which version, under which secret.
#[derive(Debug, Clone, Copy)]
pub struct VersionSecret {
    pub ver: Option<u32>,
    pub secret: Option<u32>,
}

/// The optional hex auth token a restricted route carries.
#[derive(Debug, Clone)]
pub struct Auth {
    pub auth: Option<String>,
}

// ===== Hex auth tokens =====

/// Length of an auth token in bytes, and in hex characters.
pub const AUTH_LEN: usize = 12;

/// Whether a character is a hexadecimal digit.
pub open spec fn is_hex(c: char) -> bool {
    ('0' <= c && c <= '9') || ('a' <= c && c <= 'f') || ('A' <= c && c <= 'F')
}

/// Value of a hexadecimal digit (zero on anything else).
pub open spec fn hex_val(c: char) -> u8 {
    if '0' <= c && c <= '9' {
        (c as u8 - '0' as u8) as u8
    } else if 'a' <= c && c <= 'f' {
        (c as u8 - 'a' as u8 + 10) as u8
    } else if 'A' <= c && c <= 'F' {
        (c as u8 - 'A' as u8 + 10) as u8
    } else {
        0u8
    }
}

/// Uppercase for the lowercase hex letters; everything else unchanged.
pub open spec fn upper_hex_char(c: char) -> char {
    if c == 'a' {
        'A'
    } else if c == 'b' {
        'B'
    } else if c == 'c' {
        'C'
    } else if c == 'd' {
        'D'
    } else if c == 'e' {
        'E'
    } else if c == 'f' {
        'F'
    } else {
        c
    }
}

/// An acceptable token: exactly twenty-four hex characters.
pub open spec fn auth_ok(s: Seq<char>) -> bool {
    s.len() == 2 * AUTH_LEN && forall|i: int| 0 <= i < s.len() ==> is_hex(#[trigger] s[i])
}

/// The token's bytes: each pair of hex characters, high digit first.
pub open spec fn auth_bytes(s: Seq<char>) -> Seq<u8> {
    Seq::new(AUTH_LEN as nat, |k: int| (hex_val(s[2 * k]) * 16 + hex_val(s[2 * k + 1])) as u8)
}

/// The token, uppercased.
pub open spec fn upper_hex_seq(s: Seq<char>) -> Seq<char> {
    s.map_values(|c: char| upper_hex_char(c))
}

fn hex_val_exec(c: char) -> (r: Option<u8>)
    ensures
        r matches Some(v) ==> is_hex(c) && v == hex_val(c),
        r is None ==> !is_hex(c),
{
    if '0' <= c && c <= '9' {
        Some(c as u8 - '0' as u8)
    } else if 'a' <= c && c <= 'f' {
        Some(c as u8 - 'a' as u8 + 10)
    } else if 'A' <= c && c <= 'F' {
        Some(c as u8 - 'A' as u8 + 10)
    } else {
        None
    }
}

fn upper_hex_exec(c: char) -> (r: char)
    ensures
        r == upper_hex_char(c),
{
    if c == 'a' {
        'A'
    } else if c == 'b' {
        'B'
    } else if c == 'c' {
        'C'
    } else if c == 'd' {
        'D'
    } else if c == 'e' {
        'E'
    } else if c == 'f' {
        'F'
    } else {
        c
    }
}

/// Parses an auth token: exactly twenty-four hex characters give the twelve
/// token bytes and the uppercased token; anything else gives nothing.
#[verifier::loop_isolation(false)]
pub fn parse_auth(auth: &Auth) -> (r: Option<(Vec<u8>, String)>)
    ensures
        r matches Some((bytes, up)) ==> auth.auth matches Some(s) && auth_ok(s@)
            && bytes@ == auth_bytes(s@) && up@ == upper_hex_seq(s@),
        r is None ==> (auth.auth is None || !auth_ok(auth.auth->Some_0@)),
{
    let s: &str = match &auth.auth {
        Some(s) => s.as_str(),
        None => {
            return None;
        },
    };
    proof {
        assert(auth.auth->Some_0@ == s@);
    }
    if s.unicode_len() != 2 * AUTH_LEN {
        return None;
    }
    let mut bytes: Vec<u8> = Vec::new();
    let mut up_bytes: Vec<u8> = Vec::new();
    let mut i: usize = 0;
    while i < AUTH_LEN
        invariant
            i <= AUTH_LEN,
            s@.len() == 2 * AUTH_LEN,
            bytes@.len() == i,
            up_bytes@.len() == 2 * i,
            forall|k: int| 0 <= k < i ==> #[trigger] bytes@[k] == (hex_val(s@[2 * k]) * 16
                + hex_val(s@[2 * k + 1])) as u8,
            forall|k: int| 0 <= k < 2 * i ==> #[trigger] up_bytes@[k]
                == upper_hex_char(s@[k]) as u8,
            forall|k: int| 0 <= k < 2 * i ==> is_hex(#[trigger] s@[k]),
        decreases AUTH_LEN - i,
    {
        let c0 = s.get_char(2 * i);
        let c1 = s.get_char(2 * i + 1);
        let h0 = match hex_val_exec(c0) {
            Some(h) => h,
            None => {
                proof {
                    assert(!auth_ok(s@)) by {
                        if auth_ok(s@) {
                            assert(is_hex(s@[2 * i as int]));
                        }
                    }
                }
                return None;
            },
        };
        let h1 = match hex_val_exec(c1) {
            Some(h) => h,
            None => {
                proof {
                    assert(!auth_ok(s@)) by {
                        if auth_ok(s@) {
                            assert(is_hex(s@[2 * i as int + 1]));
                        }
                    }
                }
                return None;
            },
        };
        bytes.push(h0 * 16 + h1);
        up_bytes.push(upper_hex_exec(c0) as u8);
        up_bytes.push(upper_hex_exec(c1) as u8);
        i = i + 1;
    }
    proof {
        assert(auth_ok(s@));
        assert(bytes@ =~= auth_bytes(s@));
        let up_chars = upper_hex_seq(s@);
        assert(is_ascii_chars(up_chars)) by {
            assert forall|k: int| 0 <= k < up_chars.len()
                implies '\0' <= #[trigger] up_chars[k] <= '\u{7f}' by {
                assert(is_hex(s@[k]));
            }
        }
        is_ascii_chars_encode_utf8(up_chars);
        encode_utf8_valid_utf8(up_chars);
        encode_utf8_decode_utf8(up_chars);
        assert(up_bytes@ =~= vstd::utf8::encode_utf8(up_chars));
    }
    match string_from_utf8(up_bytes.as_slice()) {
        Some(up) => Some((bytes, up)),
        None => None,
    }
}

// ===== Upload validation =====

/// Required square pixel size of an avatar image.
pub const IMAGE_SIZE: u32 = 128;

/// Smallest and largest base64 body an upload may carry.
pub const MIN_DATA_LEN: usize = 16;

pub const MAX_DATA_LEN: usize = 131072;

/// Everything that can go wrong with an avatar upload, by kind.
#[derive(Debug, Clone, Copy, PartialEq, Eq, Structural)]
pub enum AvatarUploadError {
    /// Not a PNG data URL.
    DataUrl,
    /// Body outside the accepted size range; carries the body's length.
    DataLength(usize),
    /// The body is not valid base64.
    Base64,
    /// The decoded bytes are not a readable PNG image.
    ImageLoad,
    /// The image is not the required square size; carries what it was.
    ImageSize(u32, u32),
    /// The image could not be re-encoded.
    ImageWrite,
    /// The store refused or failed the write.
    SledVersioned(VersionedError),
}

/// The bytes of `data:image/png;base64,`, the only accepted upload prefix.
pub open spec fn data_url_prefix() -> Seq<u8> {
    seq![
        100u8, 97u8, 116u8, 97u8, 58u8, 105u8, 109u8, 97u8, 103u8, 101u8, 47u8, 112u8, 110u8,
        103u8, 59u8, 98u8, 97u8, 115u8, 101u8, 54u8, 52u8, 44u8,
    ]
}

/// What the data-URL check accepts: a strict prefix match, then a body whose
/// length is within bounds; the body is returned.
pub open spec fn spec_parse_data_url(p: Seq<u8>) -> Result<Seq<u8>, AvatarUploadError> {
    if p.len() <= data_url_prefix().len() || p.take(22) != data_url_prefix() {
        Err(AvatarUploadError::DataUrl)
    } else if p.len() - 22 < MIN_DATA_LEN || p.len() - 22 > MAX_DATA_LEN {
        Err(AvatarUploadError::DataLength((p.len() - 22) as usize))
    } else {
        Ok(p.skip(22))
    }
}

/// Checks the data-URL frame of an upload and hands back the base64 body.
pub fn parse_data_url(p: &Vec<u8>) -> (r: Result<Vec<u8>, AvatarUploadError>)
    ensures
        r matches Ok(v) ==> spec_parse_data_url(p@) == Ok::<Seq<u8>, AvatarUploadError>(v@),
        r matches Err(e) ==> spec_parse_data_url(p@) == Err::<Seq<u8>, AvatarUploadError>(e),
{
    let prefix: Vec<u8> = vec![
        100u8, 97u8, 116u8, 97u8, 58u8, 105u8, 109u8, 97u8, 103u8, 101u8, 47u8, 112u8, 110u8,
        103u8, 59u8, 98u8, 97u8, 115u8, 101u8, 54u8, 52u8, 44u8,
    ];
    proof {
        assert(prefix@ =~= data_url_prefix());
    }
    if p.len() <= prefix.len() {
        return Err(AvatarUploadError::DataUrl);
    }
    let mut i: usize = 0;
    while i < 22
        invariant
            i <= 22,
            p@.len() > 22,
            prefix@ == data_url_prefix(),
            prefix@.len() == 22,
            forall|k: int| 0 <= k < i ==> #[trigger] p@[k] == data_url_prefix()[k],
        decreases 22 - i,
    {
        if p[i] != prefix[i] {
            proof {
                assert(p@.take(22)[i as int] != data_url_prefix()[i as int]);
            }
            return Err(AvatarUploadError::DataUrl);
        }
        i = i + 1;
    }
    proof {
        assert(p@.take(22) =~= data_url_prefix());
    }
    let body_len = p.len() - 22;
    if body_len < MIN_DATA_LEN || body_len > MAX_DATA_LEN {
        return Err(AvatarUploadError::DataLength(body_len));
    }
    let body = slice_to_vec(&p.as_slice()[22..p.len()]);
    proof {
        assert(body@ =~= p@.skip(22));
    }
    Ok(body)
}

// ===== Trusted image and base64 wrappers =====

/// What standard base64 with padding decodes a byte string to, if anything.
pub uninterp spec fn base64_decode_of(b: Seq<u8>) -> Option<Seq<u8>>;

/// Relies on `base64`'s standard engine: decoding is a function of the input
/// bytes alone.
#[verifier::external_body]
fn base64_decode(data: &[u8]) -> (r: Option<Vec<u8>>)
    ensures
        r matches Some(v) ==> base64_decode_of(data@) == Some(v@),
        r is None ==> base64_decode_of(data@) is None,
{
    base64::engine::general_purpose::STANDARD.decode(data).ok()
}

/// The pixel dimensions of a PNG byte string, if it is one.
pub uninterp spec fn png_size_of(b: Seq<u8>) -> Option<(u32, u32)>;

/// Relies on `image::load_from_memory_with_format`: whether bytes load as a
/// PNG, and at what size, depends on the bytes alone.
#[verifier::external_body]
fn png_dims(data: &[u8]) -> (r: Option<(u32, u32)>)
    ensures
        r == png_size_of(data@),
{
    image::load_from_memory_with_format(data, image::ImageFormat::Png)
        .ok()
        .map(|img| (img.width(), img.height()))
}

/// The canonical re-encoding of a PNG byte string: decoded, forced to RGB,
/// and written back out as PNG. A function of the input bytes alone.
pub uninterp spec fn png_reencode_of(b: Seq<u8>) -> Option<Seq<u8>>;

/// Relies on `image`'s PNG decoder and encoder: the re-encoded image depends
/// on the input bytes alone.
#[verifier::external_body]
fn png_reencode(data: &[u8]) -> (r: Option<Vec<u8>>)
    ensures
        r matches Some(v) ==> png_reencode_of(data@) == Some(v@),
        r is None ==> png_reencode_of(data@) is None,
{
    let img = match image::load_from_memory_with_format(data, image::ImageFormat::Png) {
        Ok(img) => img,
        Err(_) => {
            return None;
        },
    };
    let rgb = image::DynamicImage::ImageRgb8(img.to_rgb8());
    let mut cursor = std::io::Cursor::new(Vec::new());
    match rgb.write_to(&mut cursor, image::ImageFormat::Png) {
        Ok(()) => Some(cursor.into_inner()),
        Err(_) => None,
    }
}

// ===== The upload pipeline =====

/// What normalizing a base64 body yields: the decoded bytes must load as a
/// PNG of exactly the required square size, and are re-encoded canonically.
pub open spec fn spec_normalize(data: Seq<u8>) -> Result<Seq<u8>, AvatarUploadError> {
    match base64_decode_of(data) {
        None => Err(AvatarUploadError::Base64),
        Some(d) => match png_size_of(d) {
            None => Err(AvatarUploadError::ImageLoad),
            Some((w, h)) => if w != IMAGE_SIZE || h != IMAGE_SIZE {
                Err(AvatarUploadError::ImageSize(w, h))
            } else {
                match png_reencode_of(d) {
                    None => Err(AvatarUploadError::ImageWrite),
                    Some(v) => Ok(v),
                }
            },
        },
    }
}

/// Normalizes a base64 body into the canonical PNG bytes to store.
pub fn normalize_image(data: &Vec<u8>) -> (r: Result<Vec<u8>, AvatarUploadError>)
    ensures
        r matches Ok(v) ==> spec_normalize(data@) == Ok::<Seq<u8>, AvatarUploadError>(v@),
        r matches Err(e) ==> spec_normalize(data@) == Err::<Seq<u8>, AvatarUploadError>(e),
{
    let decoded = match base64_decode(data.as_slice()) {
        Some(d) => d,
        None => {
            return Err(AvatarUploadError::Base64);
        },
    };
    let (w, h) = match png_dims(decoded.as_slice()) {
        Some(dims) => dims,
        None => {
            return Err(AvatarUploadError::ImageLoad);
        },
    };
    if w != IMAGE_SIZE || h != IMAGE_SIZE {
        return Err(AvatarUploadError::ImageSize(w, h));
    }
    match png_reencode(decoded.as_slice()) {
        Some(v) => Ok(v),
        None => Err(AvatarUploadError::ImageWrite),
    }
}

/// Normalizes a base64 body and stores it as the character's next avatar
/// version. On success the returned leaf carries the new version, its fresh
/// secret, and exactly the normalized bytes; whatever happens, no other
/// character's state changes.
pub fn save_image(root: &mut Root, char_id: u32, data: &Vec<u8>)
    -> (r: Result<Leaf, AvatarUploadError>)
    ensures
        r matches Ok(leaf) ==> spec_normalize(data@) matches Ok(nb)
            && spec_set_image_ok(old(root)@, final(root)@, char_id, leaf@, nb),
        r matches Err(e) ==> match e {
            AvatarUploadError::SledVersioned(ve) => ve == VersionedError::Backend
                && spec_normalize(data@) is Ok,
            _ => spec_normalize(data@) == Err::<Seq<u8>, AvatarUploadError>(e)
                && final(root)@ == old(root)@,
        },
        other_chars_unchanged(old(root)@, final(root)@, char_id),
{
    let normalized = match normalize_image(data) {
        Ok(v) => v,
        Err(e) => {
            return Err(e);
        },
    };
    let trunk = root.trunk(char_id, None);
    match trunk.set_image(root, normalized) {
        Ok(leaf) => Ok(leaf),
        Err(e) => Err(AvatarUploadError::SledVersioned(e)),
    }
}

/// Serves an avatar fetch: a request with no secret at all is refused
/// outright; otherwise the store resolves the requested version (the latest
/// when none is named) and answers exactly as its contents dictate.
pub fn show_avatar(root: &Root, char_id: u32, q: &VersionSecret)
    -> (r: Result<Leaf, VersionedError>)
    ensures
        q.secret is None ==> r == Err::<Leaf, VersionedError>(VersionedError::Denied),
        q.secret is Some ==> match r {
            Ok(leaf) => spec_get_image(root@, char_id, q.ver, q.secret)
                == Ok::<LeafModel, VersionedError>(leaf@),
            Err(e) => e == VersionedError::Backend || spec_get_image(root@, char_id, q.ver,
                q.secret) == Err::<LeafModel, VersionedError>(e),
        },
{
    if q.secret.is_none() {
        return Err(VersionedError::Denied);
    }
    root.trunk(char_id, q.ver).get_image(root, q.secret)
}

/// The whole upload: checks the data-URL frame and size bounds, normalizes
/// the image, stores it as the next version, and pushes the new version and
/// secret to the game server best-effort through the bridge.
pub fn upload_avatar(root: &mut Root, bridge: &mut Bridge, char_id: u32, payload: &Vec<u8>)
    -> (r: Result<Leaf, AvatarUploadError>)
    requires
        old(bridge).wf(),
    ensures
        final(bridge).wf(),
        r matches Ok(leaf) ==> spec_parse_data_url(payload@) matches Ok(body)
            && spec_normalize(body) matches Ok(nb)
            && spec_set_image_ok(old(root)@, final(root)@, char_id, leaf@, nb),
        r matches Err(e) ==> match e {
            AvatarUploadError::SledVersioned(ve) => ve == VersionedError::Backend,
            _ => final(root)@ == old(root)@ && (spec_parse_data_url(payload@)
                == Err::<Seq<u8>, AvatarUploadError>(e) || (spec_parse_data_url(
                payload@) matches Ok(body) && spec_normalize(body)
                == Err::<Seq<u8>, AvatarUploadError>(e))),
        },
        other_chars_unchanged(old(root)@, final(root)@, char_id),
        r is Err ==> *final(bridge) == *old(bridge),
{
    let body = match parse_data_url(payload) {
        Ok(v) => v,
        Err(e) => {
            return Err(e);
        },
    };
    match save_image(root, char_id, &body) {
        Ok(leaf) => {
            bridge.update_char_leaf(char_id, &leaf);
            Ok(leaf)
        },
        Err(e) => Err(e),
    }
}

} // verus!
