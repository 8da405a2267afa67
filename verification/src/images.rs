//! The image side of the store: the per-tenant filesystem layout, the
//! byte-signature checks an upload must pass, the derived-size
//! arithmetic, and the id generator whose output is delimiter-free by
//! construction.

use vstd::prelude::*;
use vstd::string::StrSliceExecFns;
use vstd::string::StringExecFns;

use crate::codec::valid_id;
use crate::errors::Error;
use crate::strings::split_all;
use crate::strings::split_all_str;
use crate::strings::str_eq;

verus! {

/// The three stored resolutions of every image.
#[derive(Clone, Copy, PartialEq, Eq, Debug)]
pub enum ImageSize {
    Small,
    Medium,
    Large,
}

/// The directory component a size selects under `images/`.
pub open spec fn size_dir(size: ImageSize) -> Seq<char> {
    match size {
        ImageSize::Large => "/images/"@,
        ImageSize::Medium => "/images/medium/"@,
        ImageSize::Small => "/images/small/"@,
    }
}

/// The path of one stored image: `users/{tenant}/images[/size]/{id}.{ext}`
/// under the application root.
pub open spec fn spec_image_path(
    user: Seq<char>,
    id: Seq<char>,
    ext: Seq<char>,
    size: ImageSize,
) -> Seq<char> {
    "/app/users/"@ + user + size_dir(size) + id + "."@ + ext
}

/// Builds the path of one stored image.
pub fn image_path(user: &str, id: &str, ext: &str, size: ImageSize) -> (r: String)
    ensures
        r@ == spec_image_path(user@, id@, ext@, size),
{
    let mut r = "/app/users/".to_owned();
    r.append(user);
    match size {
        ImageSize::Large => r.append("/images/"),
        ImageSize::Medium => r.append("/images/medium/"),
        ImageSize::Small => r.append("/images/small/"),
    }
    r.append(id);
    r.append(".");
    r.append(ext);
    proof {
        assert(r@ =~= spec_image_path(user@, id@, ext@, size));
    }
    r
}

/// The backup workspace of a tenant.
pub open spec fn spec_temp_dir(user: Seq<char>) -> Seq<char> {
    "/app/users/"@ + user + "/temp"@
}

pub fn temp_dir(user: &str) -> (r: String)
    ensures
        r@ == spec_temp_dir(user@),
{
    let mut r = "/app/users/".to_owned();
    r.append(user);
    r.append("/temp");
    proof {
        assert(r@ =~= spec_temp_dir(user@));
    }
    r
}

/// The fixed dump file inside the workspace.
pub fn dump_file_path(user: &str) -> (r: String)
    ensures
        r@ == spec_temp_dir(user@) + "/dump_file.sql"@,
{
    let mut r = temp_dir(user);
    r.append("/dump_file.sql");
    r
}

/// The transient archive a snapshot streams.
pub fn archive_path(user: &str) -> (r: String)
    ensures
        r@ == "/app/users/"@ + user@ + "/backup.zip"@,
{
    let mut r = "/app/users/".to_owned();
    r.append(user);
    r.append("/backup.zip");
    proof {
        assert(r@ =~= "/app/users/"@ + user@ + "/backup.zip"@);
    }
    r
}

/// The extensions an image may carry.
pub open spec fn spec_allowed_ext(ext: Seq<char>) -> bool {
    ext == "webp"@ || ext == "jpg"@ || ext == "png"@ || ext == "jpeg"@ || ext == "gif"@
}

pub fn is_allowed_image_ext(ext: &str) -> (r: bool)
    ensures
        r == spec_allowed_ext(ext@),
{
    str_eq(ext, "webp") || str_eq(ext, "jpg") || str_eq(ext, "png") || str_eq(ext, "jpeg")
        || str_eq(ext, "gif")
}

/// The wire content type each extension is served under; unrecognized
/// extensions are rejected.
pub fn content_type_for(ext: &str) -> (r: Result<&'static str, Error>)
    ensures
        match r {
            Ok(ct) => (ext@ == "png"@ && ct@ == "image/png"@) || ((ext@ == "jpg"@ || ext@
                == "jpeg"@) && ct@ == "image/jpeg"@) || (ext@ == "webp"@ && ct@ == "image/webp"@)
                || (ext@ == "gif"@ && ct@ == "image/gif"@),
            Err(Error::Validation) => ext@ != "png"@ && ext@ != "jpg"@ && ext@ != "jpeg"@ && ext@
                != "webp"@ && ext@ != "gif"@,
            Err(_) => false,
        },
{
    if str_eq(ext, "png") {
        Ok("image/png")
    } else if str_eq(ext, "jpg") || str_eq(ext, "jpeg") {
        Ok("image/jpeg")
    } else if str_eq(ext, "webp") {
        Ok("image/webp")
    } else if str_eq(ext, "gif") {
        Ok("image/gif")
    } else {
        Err(Error::Validation)
    }
}

/// Splits an uploaded file name into stem and extension; names with
/// other than exactly one dot are rejected, as uploads are.
pub fn split_filename(name: &str) -> (r: Option<(String, String)>)
    ensures
        match r {
            Some(parts) => split_all(name@, '.').len() == 2 && parts.0@ == split_all(
                name@,
                '.',
            )[0] && parts.1@ == split_all(name@, '.')[1],
            None => split_all(name@, '.').len() != 2,
        },
{
    let mut parts = split_all_str(name, '.');
    if parts.len() != 2 {
        return None;
    }
    let ext = parts.pop().unwrap();
    let stem = parts.pop().unwrap();
    Some((stem, ext))
}

/// The JPEG signature: the three lead bytes of every JPEG stream.
pub open spec fn jpeg_sig(b: Seq<u8>) -> bool {
    b.len() > 2 && b[0] == 0xFF && b[1] == 0xD8 && b[2] == 0xFF
}

/// The PNG signature: the four lead bytes of every PNG stream.
pub open spec fn png_sig(b: Seq<u8>) -> bool {
    b.len() > 3 && b[0] == 0x89 && b[1] == 0x50 && b[2] == 0x4E && b[3] == 0x47
}

/// The WEBP signature: `WEBP` at offset eight of the RIFF header.
pub open spec fn webp_sig(b: Seq<u8>) -> bool {
    b.len() > 11 && b[8] == 0x57 && b[9] == 0x45 && b[10] == 0x42 && b[11] == 0x50
}

/// Relies on infer's JPEG matcher: it tests exactly the three-byte
/// signature.
pub assume_specification[ infer::image::is_jpeg ](buf: &[u8]) -> (r: bool)
    ensures
        r == jpeg_sig(buf@),
;

/// Relies on infer's PNG matcher: it tests exactly the four-byte
/// signature.
pub assume_specification[ infer::image::is_png ](buf: &[u8]) -> (r: bool)
    ensures
        r == png_sig(buf@),
;

/// Relies on infer's WEBP matcher: it tests exactly the `WEBP` tag at
/// offset eight.
pub assume_specification[ infer::image::is_webp ](buf: &[u8]) -> (r: bool)
    ensures
        r == webp_sig(buf@),
;

/// The upload gate: bytes are stored only when they carry a JPEG, PNG
/// or WEBP signature.
pub open spec fn spec_accepted_image(b: Seq<u8>) -> bool {
    jpeg_sig(b) || png_sig(b) || webp_sig(b)
}

/// Whether uploaded bytes pass the image-signature gate.
pub fn accepts_image_bytes(data: &[u8]) -> (r: bool)
    ensures
        r == spec_accepted_image(data@),
{
    infer::image::is_jpeg(data) || infer::image::is_png(data) || infer::image::is_webp(data)
}

/// The pixel dimensions the image codec reads from an encoded stream;
/// a function of the bytes alone.
pub uninterp spec fn image_dims_of(b: Seq<u8>) -> Option<(u32, u32)>;

/// Relies on image's in-memory decoder: the dimensions of a decodable
/// stream depend on its bytes alone, and a stream it cannot decode
/// yields none.
#[verifier::external_body]
fn decode_image_dimensions(data: &[u8]) -> (r: Option<(u32, u32)>)
    ensures
        r == image_dims_of(data@),
{
    match image::load_from_memory(data) {
        Ok(img) => Some((img.width(), img.height())),
        Err(_) => None,
    }
}

/// The edge lengths of the stored derived sizes.
pub open spec fn small_side() -> u32 {
    150
}

pub open spec fn medium_side() -> u32 {
    400
}

/// The derived dimensions for one target edge: the longer side becomes
/// the target, the shorter side is scaled to keep the aspect ratio.
pub open spec fn spec_resized(w: u32, h: u32, target: u32) -> (u32, u32) {
    if h > w {
        (((w as int) * (target as int) / (h as int)) as u32, target)
    } else {
        (target, ((target as int) * (h as int) / (w as int)) as u32)
    }
}

/// Computes the derived dimensions, free of overflow.
pub fn resized_dimensions(w: u32, h: u32, target: u32) -> (r: (u32, u32))
    requires
        w > 0,
        h > 0,
    ensures
        r == spec_resized(w, h, target),
{
    proof {
        assert((w as int) * (target as int) < 0x10000000000000000) by (nonlinear_arith)
            requires
                w as int <= 0xffffffff,
                target as int <= 0xffffffff,
        ;
        assert((target as int) * (h as int) < 0x10000000000000000) by (nonlinear_arith)
            requires
                h as int <= 0xffffffff,
                target as int <= 0xffffffff,
        ;
    }
    if h > w {
        let scaled = (w as u64) * (target as u64) / (h as u64);
        proof {
            lemma_scaled_bounded(w as int, h as int, target as int);
        }
        (scaled as u32, target)
    } else {
        let scaled = (target as u64) * (h as u64) / (w as u64);
        proof {
            lemma_scaled_bounded(h as int, w as int, target as int);
            assert((target as int) * (h as int) == (h as int) * (target as int)) by (nonlinear_arith);
        }
        (target, scaled as u32)
    }
}

/// The scaled short side never exceeds the target edge.
proof fn lemma_scaled_bounded(a: int, b: int, target: int)
    requires
        0 < a <= b,
        0 <= target,
    ensures
        0 <= a * target / b <= target,
{
    vstd::arithmetic::mul::lemma_mul_inequality(a, b, target);
    vstd::arithmetic::div_mod::lemma_div_is_ordered(a * target, b * target, b);
    vstd::arithmetic::div_mod::lemma_div_multiples_vanish(target, b);
    assert(b * target == target * b) by (nonlinear_arith);
    vstd::arithmetic::div_mod::lemma_div_pos_is_pos(a * target, b);
    vstd::arithmetic::mul::lemma_mul_nonnegative(a, target);
}

/// The derived-size plan for uploaded bytes: the small and medium
/// dimensions of a decodable image with positive extent, nothing
/// otherwise.
pub fn plan_resize(data: &[u8]) -> (r: Option<((u32, u32), (u32, u32))>)
    ensures
        match r {
            Some(plan) => {
                let dims = image_dims_of(data@);
                &&& dims is Some
                &&& dims->Some_0.0 > 0
                &&& dims->Some_0.1 > 0
                &&& plan.0 == spec_resized(dims->Some_0.0, dims->Some_0.1, small_side())
                &&& plan.1 == spec_resized(dims->Some_0.0, dims->Some_0.1, medium_side())
            },
            None => image_dims_of(data@) is None || image_dims_of(data@)->Some_0.0 == 0
                || image_dims_of(data@)->Some_0.1 == 0,
        },
{
    match decode_image_dimensions(data) {
        None => None,
        Some(dims) => {
            let (w, h) = dims;
            if w == 0 || h == 0 {
                return None;
            }
            let small = resized_dimensions(w, h, 150);
            let medium = resized_dimensions(w, h, 400);
            Some((small, medium))
        },
    }
}

/// A character a generated id may carry: lowercase hex or a hyphen.
pub open spec fn is_uuid_char(c: char) -> bool {
    ('0' <= c && c <= '9') || ('a' <= c && c <= 'f') || c == '-'
}

/// Relies on uuid's version-4 generator and its canonical formatting:
/// thirty-six characters of lowercase hex and hyphens.
#[verifier::external_body]
fn fresh_uuid_string() -> (r: String)
    ensures
        r@.len() == 36,
        forall|i: int| 0 <= i < r@.len() ==> is_uuid_char(#[trigger] r@[i]),
{
    uuid::Uuid::new_v4().to_string()
}

/// A fresh random id for an item or container: by construction nonempty
/// and free of the set delimiter, so it may enter any encoded id set.
pub fn generate_id() -> (r: String)
    ensures
        valid_id(r@),
        r@.len() == 36,
{
    let id = fresh_uuid_string();
    proof {
        assert forall|i: int| 0 <= i < id@.len() implies id@[i] != '@' by {
            assert(is_uuid_char(id@[i]));
        }
    }
    id
}

} // verus!
