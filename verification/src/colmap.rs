//! The binary files of a COLMAP sparse reconstruction (`cameras.bin`, `images.bin`,
//! `points3D.bin`), decoded from their bytes. All numbers are little-endian; floating-point
//! values are kept as the bit patterns of their `f64`.
use vstd::prelude::*;
use std::collections::HashMap;
use vstd::bytes::{spec_u32_from_le_bytes, spec_u64_from_le_bytes, u32_from_le_bytes, u64_from_le_bytes};
use vstd::slice::slice_subrange;
use vstd::utf8::{decode_utf8, valid_utf8};
use crate::text::{push_signed_decimal, signed_decimal};

verus! {

broadcast use vstd::std_specs::hash::group_hash_axioms;

pub type CameraId = u32;

pub type ImageId = u32;

pub type Point3DId = u64;

/// Why a file could not be decoded.
#[derive(Debug, Clone, Copy, PartialEq, Eq, Structural)]
pub enum ColmapError {
    /// The bytes ended before a value that should follow.
    UnexpectedEof,
    /// A camera names a model id that COLMAP does not define.
    UnknownCameraModel(i32),
    /// An image name is not valid UTF-8.
    InvalidUtf8,
}

/// The text an error is reported with.
pub open spec fn spec_error_message(e: ColmapError) -> Seq<char> {
    match e {
        ColmapError::UnexpectedEof => "failed to fill whole buffer"@,
        ColmapError::UnknownCameraModel(id) => "unknown COLMAP camera model id "@ + signed_decimal(
            id as int,
        ),
        ColmapError::InvalidUtf8 => "invalid utf-8 in an image name"@,
    }
}

impl ColmapError {
    /// The text this error is reported with: the words a short read uses, or which model
    /// id is unknown, or that a name is not UTF-8.
    pub fn message(&self) -> (r: String)
        ensures
            r@ == spec_error_message(*self),
    {
        match self {
            ColmapError::UnexpectedEof => String::from_str("failed to fill whole buffer"),
            ColmapError::UnknownCameraModel(id) => {
                let mut r = String::from_str("unknown COLMAP camera model id ");
                push_signed_decimal(&mut r, *id as i64);
                r
            },
            ColmapError::InvalidUtf8 => String::from_str("invalid utf-8 in an image name"),
        }
    }

    /// Whether the error is one of bad data (an unknown model id or a name that is not
    /// UTF-8) rather than of data that ends too soon.
    pub fn is_invalid_data(&self) -> (r: bool)
        ensures
            r == !(*self is UnexpectedEof),
    {
        match self {
            ColmapError::UnexpectedEof => false,
            _ => true,
        }
    }
}

/// The camera models of COLMAP, in the order of their ids.
#[derive(Debug, Clone, Copy, PartialEq, Eq, Structural)]
pub enum CameraModel {
    SimplePinhole,
    Pinhole,
    SimpleRadial,
    Radial,
    OpenCV,
    OpenCVFisheye,
    FullOpenCV,
    Fov,
    SimpleRadialFisheye,
    RadialFisheye,
    ThinPrismFisheye,
}

/// The model with COLMAP's model id `id`, if there is one.
pub open spec fn camera_model_of(id: i32) -> Option<CameraModel> {
    if id == 0 {
        Some(CameraModel::SimplePinhole)
    } else if id == 1 {
        Some(CameraModel::Pinhole)
    } else if id == 2 {
        Some(CameraModel::SimpleRadial)
    } else if id == 3 {
        Some(CameraModel::Radial)
    } else if id == 4 {
        Some(CameraModel::OpenCV)
    } else if id == 5 {
        Some(CameraModel::OpenCVFisheye)
    } else if id == 6 {
        Some(CameraModel::FullOpenCV)
    } else if id == 7 {
        Some(CameraModel::Fov)
    } else if id == 8 {
        Some(CameraModel::SimpleRadialFisheye)
    } else if id == 9 {
        Some(CameraModel::RadialFisheye)
    } else if id == 10 {
        Some(CameraModel::ThinPrismFisheye)
    } else {
        None
    }
}

/// The number of intrinsic parameters of a model.
pub open spec fn param_count(m: CameraModel) -> nat {
    match m {
        CameraModel::SimplePinhole => 3,
        CameraModel::Pinhole => 4,
        CameraModel::SimpleRadial => 4,
        CameraModel::Radial => 5,
        CameraModel::OpenCV => 8,
        CameraModel::OpenCVFisheye => 8,
        CameraModel::FullOpenCV => 12,
        CameraModel::Fov => 5,
        CameraModel::SimpleRadialFisheye => 4,
        CameraModel::RadialFisheye => 5,
        CameraModel::ThinPrismFisheye => 12,
    }
}

impl CameraModel {
    /// The model with COLMAP's model id `id`.
    pub fn from_id(id: i32) -> (r: Result<CameraModel, ColmapError>)
        ensures
            r == match camera_model_of(id) {
                Some(m) => Ok::<CameraModel, ColmapError>(m),
                None => Err(ColmapError::UnknownCameraModel(id)),
            },
    {
        match id {
            0 => Ok(CameraModel::SimplePinhole),
            1 => Ok(CameraModel::Pinhole),
            2 => Ok(CameraModel::SimpleRadial),
            3 => Ok(CameraModel::Radial),
            4 => Ok(CameraModel::OpenCV),
            5 => Ok(CameraModel::OpenCVFisheye),
            6 => Ok(CameraModel::FullOpenCV),
            7 => Ok(CameraModel::Fov),
            8 => Ok(CameraModel::SimpleRadialFisheye),
            9 => Ok(CameraModel::RadialFisheye),
            10 => Ok(CameraModel::ThinPrismFisheye),
            _ => Err(ColmapError::UnknownCameraModel(id)),
        }
    }

    /// The number of intrinsic parameters of this model.
    pub fn num_params(self) -> (r: usize)
        ensures
            r == param_count(self),
    {
        match self {
            CameraModel::SimplePinhole => 3,
            CameraModel::Pinhole => 4,
            CameraModel::SimpleRadial => 4,
            CameraModel::Radial => 5,
            CameraModel::OpenCV => 8,
            CameraModel::OpenCVFisheye => 8,
            CameraModel::FullOpenCV => 12,
            CameraModel::Fov => 5,
            CameraModel::SimpleRadialFisheye => 4,
            CameraModel::RadialFisheye => 5,
            CameraModel::ThinPrismFisheye => 12,
        }
    }
}

/// A camera; `params` holds the bit patterns of its `f64` intrinsics.
pub struct Camera {
    pub id: CameraId,
    pub model: CameraModel,
    pub width: u64,
    pub height: u64,
    pub params: Vec<u64>,
}

pub struct CameraView {
    pub id: CameraId,
    pub model: CameraModel,
    pub width: u64,
    pub height: u64,
    pub params: Seq<u64>,
}

impl View for Camera {
    type V = CameraView;

    open spec fn view(&self) -> CameraView {
        CameraView {
            id: self.id,
            model: self.model,
            width: self.width,
            height: self.height,
            params: self.params@,
        }
    }
}

/// An image: its pose (rotation as a `(w, x, y, z)` quaternion and translation, world from
/// camera), its camera, its name, and its keypoints with the 3D point each observes (`-1`
/// when none). Floating-point values are kept as `f64` bit patterns.
pub struct Image {
    pub id: ImageId,
    pub qvec: [u64; 4],
    pub tvec: [u64; 3],
    pub camera_id: CameraId,
    pub name: String,
    pub xys: Vec<(u64, u64)>,
    pub point3d_ids: Vec<i64>,
}

pub struct ImageView {
    pub id: ImageId,
    pub qvec: Seq<u64>,
    pub tvec: Seq<u64>,
    pub camera_id: CameraId,
    pub name: Seq<char>,
    pub xys: Seq<(u64, u64)>,
    pub point3d_ids: Seq<i64>,
}

impl View for Image {
    type V = ImageView;

    open spec fn view(&self) -> ImageView {
        ImageView {
            id: self.id,
            qvec: self.qvec@,
            tvec: self.tvec@,
            camera_id: self.camera_id,
            name: self.name@,
            xys: self.xys@,
            point3d_ids: self.point3d_ids@,
        }
    }
}

/// A 3D point: position, color, reprojection error (floating-point values as `f64` bit
/// patterns) and its track of `(image id, keypoint index)` observations.
pub struct Point3D {
    pub id: Point3DId,
    pub xyz: [u64; 3],
    pub rgb: [u8; 3],
    pub error: u64,
    pub track: Vec<(ImageId, i32)>,
}

pub struct Point3DView {
    pub id: Point3DId,
    pub xyz: Seq<u64>,
    pub rgb: Seq<u8>,
    pub error: u64,
    pub track: Seq<(ImageId, i32)>,
}

impl View for Point3D {
    type V = Point3DView;

    open spec fn view(&self) -> Point3DView {
        Point3DView {
            id: self.id,
            xyz: self.xyz@,
            rgb: self.rgb@,
            error: self.error,
            track: self.track@,
        }
    }
}

/// The little-endian `u32` at `pos`.
pub open spec fn le_u32(b: Seq<u8>, pos: int) -> u32 {
    spec_u32_from_le_bytes(b.subrange(pos, pos + 4))
}

/// The little-endian `u64` at `pos`.
pub open spec fn le_u64(b: Seq<u8>, pos: int) -> u64 {
    spec_u64_from_le_bytes(b.subrange(pos, pos + 8))
}

pub open spec fn le_i32(b: Seq<u8>, pos: int) -> i32 {
    le_u32(b, pos) as i32
}

pub open spec fn le_i64(b: Seq<u8>, pos: int) -> i64 {
    le_u64(b, pos) as i64
}

/// The camera record at `pos` and the position after it: id, model id, width, height,
/// then as many parameters as the model has.
pub open spec fn camera_at(b: Seq<u8>, pos: int) -> Result<(CameraView, int), ColmapError> {
    if pos + 8 > b.len() {
        Err(ColmapError::UnexpectedEof)
    } else {
        match camera_model_of(le_i32(b, pos + 4)) {
            None => Err(ColmapError::UnknownCameraModel(le_i32(b, pos + 4))),
            Some(model) => {
                let n = param_count(model);
                if pos + 24 + 8 * n > b.len() {
                    Err(ColmapError::UnexpectedEof)
                } else {
                    Ok(
                        (
                            CameraView {
                                id: le_u32(b, pos),
                                model,
                                width: le_u64(b, pos + 8),
                                height: le_u64(b, pos + 16),
                                params: Seq::new(n, |k: int| le_u64(b, pos + 24 + 8 * k)),
                            },
                            pos + 24 + 8 * n,
                        ),
                    )
                }
            },
        }
    }
}

/// COLMAP's table of intrinsic parameter counts, indexed by camera model id: simple
/// pinhole 3, pinhole 4, simple radial 4, radial 5, OpenCV 8, OpenCV fisheye 8, full OpenCV
/// 12, FOV 5, simple radial fisheye 4, radial fisheye 5, thin prism fisheye 12.
pub open spec fn colmap_param_counts() -> Seq<nat> {
    seq![3nat, 4nat, 4nat, 5nat, 8nat, 8nat, 12nat, 5nat, 4nat, 5nat, 12nat]
}

/// Every COLMAP model id names a model whose parameter count is the one COLMAP's table gives
/// for that id, and no other id names a model.
pub proof fn law_camera_models_follow_colmaps_table(id: i32)
    ensures
        0 <= id <= 10 ==> camera_model_of(id) is Some && param_count(camera_model_of(id)->0)
            == colmap_param_counts()[id as int],
        !(0 <= id <= 10) ==> camera_model_of(id) is None,
{
}

/// A camera record read at `pos` carries exactly as many parameters as COLMAP's table gives
/// for its model id, each 8 bytes after the 24-byte header, and the next record starts right
/// after the last of them.
pub proof fn law_camera_record_spans_its_parameters(b: Seq<u8>, pos: int)
    requires
        camera_at(b, pos) is Ok,
    ensures
        0 <= le_i32(b, pos + 4) <= 10,
        (camera_at(b, pos)->Ok_0).0.params.len() == colmap_param_counts()[le_i32(b, pos + 4) as int],
        (camera_at(b, pos)->Ok_0).1 == pos + 24 + 8 * colmap_param_counts()[le_i32(b, pos + 4) as int],
        forall|k: int|
            0 <= k < (camera_at(b, pos)->Ok_0).0.params.len() ==> #[trigger] (camera_at(b, pos)->Ok_0).0.params[k]
                == le_u64(b, pos + 24 + 8 * k),
{
    law_camera_models_follow_colmaps_table(le_i32(b, pos + 4));
}

/// The first NUL byte at or after `from`.
pub open spec fn first_nul(b: Seq<u8>, from: int) -> Option<int>
    decreases b.len() - from,
{
    if from >= b.len() || from < 0 {
        None
    } else if b[from] == 0 {
        Some(from)
    } else {
        first_nul(b, from + 1)
    }
}

/// The image record at `pos` and the position after it: id, four quaternion and three
/// translation components, camera id, NUL-terminated UTF-8 name, keypoint count, then per
/// keypoint x, y and 3D point id.
pub open spec fn image_at(b: Seq<u8>, pos: int) -> Result<(ImageView, int), ColmapError> {
    if pos + 64 > b.len() {
        Err(ColmapError::UnexpectedEof)
    } else {
        match first_nul(b, pos + 64) {
            None => Err(ColmapError::UnexpectedEof),
            Some(z) => {
                let name = b.subrange(pos + 64, z);
                if !valid_utf8(name) {
                    Err(ColmapError::InvalidUtf8)
                } else if z + 9 > b.len() {
                    Err(ColmapError::UnexpectedEof)
                } else {
                    let n = le_u64(b, z + 1) as nat;
                    if z + 9 + 24 * n > b.len() {
                        Err(ColmapError::UnexpectedEof)
                    } else {
                        Ok(
                            (
                                ImageView {
                                    id: le_u32(b, pos),
                                    qvec: Seq::new(4, |k: int| le_u64(b, pos + 4 + 8 * k)),
                                    tvec: Seq::new(3, |k: int| le_u64(b, pos + 36 + 8 * k)),
                                    camera_id: le_u32(b, pos + 60),
                                    name: decode_utf8(name),
                                    xys: Seq::new(
                                        n,
                                        |k: int| (le_u64(b, z + 9 + 24 * k), le_u64(b, z + 17 + 24 * k)),
                                    ),
                                    point3d_ids: Seq::new(n, |k: int| le_i64(b, z + 25 + 24 * k)),
                                },
                                z + 9 + 24 * n,
                            ),
                        )
                    }
                }
            },
        }
    }
}

/// The 3D point record at `pos` and the position after it: id, three coordinates, three
/// color bytes, error, track length, then per observation an image id and a keypoint index.
pub open spec fn point3d_at(b: Seq<u8>, pos: int) -> Result<(Point3DView, int), ColmapError> {
    if pos + 51 > b.len() {
        Err(ColmapError::UnexpectedEof)
    } else {
        let n = le_u64(b, pos + 43) as nat;
        if pos + 51 + 8 * n > b.len() {
            Err(ColmapError::UnexpectedEof)
        } else {
            Ok(
                (
                    Point3DView {
                        id: le_u64(b, pos),
                        xyz: Seq::new(3, |k: int| le_u64(b, pos + 8 + 8 * k)),
                        rgb: Seq::new(3, |k: int| b[pos + 32 + k]),
                        error: le_u64(b, pos + 35),
                        track: Seq::new(
                            n,
                            |k: int| (le_u32(b, pos + 51 + 8 * k), le_i32(b, pos + 55 + 8 * k)),
                        ),
                    },
                    pos + 51 + 8 * n,
                ),
            )
        }
    }
}

/// The little-endian `u64` at `pos`, and the position after it.
fn read_u64(bytes: &[u8], pos: usize) -> (r: Result<(u64, usize), ColmapError>)
    ensures
        match r {
            Ok((v, next)) => pos + 8 <= bytes@.len() && next == pos + 8 && v == le_u64(bytes@, pos as int),
            Err(e) => pos + 8 > bytes@.len() && e == ColmapError::UnexpectedEof,
        },
{
    if pos > bytes.len() || bytes.len() - pos < 8 {
        return Err(ColmapError::UnexpectedEof);
    }
    let v = u64_from_le_bytes(slice_subrange(bytes, pos, pos + 8));
    Ok((v, pos + 8))
}

/// The little-endian `u32` at `pos`, and the position after it.
fn read_u32(bytes: &[u8], pos: usize) -> (r: Result<(u32, usize), ColmapError>)
    ensures
        match r {
            Ok((v, next)) => pos + 4 <= bytes@.len() && next == pos + 4 && v == le_u32(bytes@, pos as int),
            Err(e) => pos + 4 > bytes@.len() && e == ColmapError::UnexpectedEof,
        },
{
    if pos > bytes.len() || bytes.len() - pos < 4 {
        return Err(ColmapError::UnexpectedEof);
    }
    let v = u32_from_le_bytes(slice_subrange(bytes, pos, pos + 4));
    Ok((v, pos + 4))
}

/// The little-endian `i32` at `pos`, and the position after it.
fn read_i32(bytes: &[u8], pos: usize) -> (r: Result<(i32, usize), ColmapError>)
    ensures
        match r {
            Ok((v, next)) => pos + 4 <= bytes@.len() && next == pos + 4 && v == le_i32(bytes@, pos as int),
            Err(e) => pos + 4 > bytes@.len() && e == ColmapError::UnexpectedEof,
        },
{
    let (v, next) = read_u32(bytes, pos)?;
    Ok((v as i32, next))
}

/// The little-endian `i64` at `pos`, and the position after it.
fn read_i64(bytes: &[u8], pos: usize) -> (r: Result<(i64, usize), ColmapError>)
    ensures
        match r {
            Ok((v, next)) => pos + 8 <= bytes@.len() && next == pos + 8 && v == le_i64(bytes@, pos as int),
            Err(e) => pos + 8 > bytes@.len() && e == ColmapError::UnexpectedEof,
        },
{
    let (v, next) = read_u64(bytes, pos)?;
    Ok((v as i64, next))
}

/// The byte at `pos`, and the position after it.
fn read_u8(bytes: &[u8], pos: usize) -> (r: Result<(u8, usize), ColmapError>)
    ensures
        match r {
            Ok((v, next)) => pos < bytes@.len() && next == pos + 1 && v == bytes@[pos as int],
            Err(e) => pos >= bytes@.len() && e == ColmapError::UnexpectedEof,
        },
{
    if pos >= bytes.len() {
        return Err(ColmapError::UnexpectedEof);
    }
    Ok((bytes[pos], pos + 1))
}

/// `std::string::String::from_utf8`: the string that `bytes` encode in UTF-8, or nothing
/// when they are not valid UTF-8 (vstd's `valid_utf8` is the standard's definition:
/// well-formed sequences, no overlong forms, no surrogates, nothing above U+10FFFF).
#[verifier::external_body]
fn string_from_utf8(bytes: Vec<u8>) -> (r: Option<String>)
    ensures
        match r {
            Some(s) => valid_utf8(bytes@) && s@ == decode_utf8(bytes@),
            None => !valid_utf8(bytes@),
        },
{
    String::from_utf8(bytes).ok()
}

/// The NUL-terminated UTF-8 string at `pos`, and the position after its NUL.
fn read_null_terminated_string(bytes: &[u8], pos: usize) -> (r: Result<(String, usize), ColmapError>)
    ensures
        match r {
            Ok((s, next)) => first_nul(bytes@, pos as int) == Some(next - 1) && valid_utf8(
                bytes@.subrange(pos as int, next - 1),
            ) && s@ == decode_utf8(bytes@.subrange(pos as int, next - 1)),
            Err(e) => match first_nul(bytes@, pos as int) {
                None => e == ColmapError::UnexpectedEof,
                Some(z) => !valid_utf8(bytes@.subrange(pos as int, z)) && e == ColmapError::InvalidUtf8,
            },
        },
{
    if pos >= bytes.len() {
        return Err(ColmapError::UnexpectedEof);
    }
    let mut collected: Vec<u8> = Vec::new();
    let mut i = pos;
    while i < bytes.len() && bytes[i] != 0
        invariant
            pos <= i <= bytes@.len(),
            first_nul(bytes@, i as int) == first_nul(bytes@, pos as int),
            collected@ == bytes@.subrange(pos as int, i as int),
        decreases bytes@.len() - i,
    {
        collected.push(bytes[i]);
        proof {
            assert(collected@ =~= bytes@.subrange(pos as int, i + 1));
        }
        i = i + 1;
    }
    if i >= bytes.len() {
        return Err(ColmapError::UnexpectedEof);
    }
    match string_from_utf8(collected) {
        Some(s) => Ok((s, i + 1)),
        None => Err(ColmapError::InvalidUtf8),
    }
}

/// The camera record at `pos`, and the position after it.
pub fn read_camera(bytes: &[u8], pos: usize) -> (r: Result<(Camera, usize), ColmapError>)
    ensures
        match (r, camera_at(bytes@, pos as int)) {
            (Ok((c, next)), Ok((cv, q))) => c@ == cv && next == q,
            (Err(e), Err(se)) => e == se,
            _ => false,
        },
{
    let (id, p) = match read_u32(bytes, pos) {
        Ok(v) => v,
        Err(e) => {
            return Err(e);
        },
    };
    let (model_id, p) = match read_i32(bytes, p) {
        Ok(v) => v,
        Err(e) => {
            return Err(e);
        },
    };
    let model = match CameraModel::from_id(model_id) {
        Ok(m) => m,
        Err(e) => {
            return Err(e);
        },
    };
    let (width, p) = match read_u64(bytes, p) {
        Ok(v) => v,
        Err(e) => {
            return Err(e);
        },
    };
    let (height, p) = match read_u64(bytes, p) {
        Ok(v) => v,
        Err(e) => {
            return Err(e);
        },
    };
    let n = model.num_params();
    let ghost b = bytes@;
    let mut params: Vec<u64> = Vec::new();
    let mut p = p;
    let mut k: usize = 0;
    while k < n
        invariant
            k <= n,
            n == param_count(model),
            b == bytes@,
            pos + 8 <= b.len(),
            camera_model_of(le_i32(b, pos + 4)) == Some(model),
            p == pos + 24 + 8 * k,
            p <= b.len(),
            params@ == Seq::new(k as nat, |j: int| le_u64(b, pos + 24 + 8 * j)),
        decreases n - k,
    {
        let (v, q) = match read_u64(bytes, p) {
            Ok(v) => v,
            Err(e) => {
                return Err(e);
            },
        };
        params.push(v);
        p = q;
        k = k + 1;
        proof {
            assert(params@ =~= Seq::new(k as nat, |j: int| le_u64(b, pos + 24 + 8 * j)));
        }
    }
    Ok((Camera { id, model, width, height, params }, p))
}

/// The image record at `pos`, and the position after it.
pub fn read_image(bytes: &[u8], pos: usize) -> (r: Result<(Image, usize), ColmapError>)
    ensures
        match (r, image_at(bytes@, pos as int)) {
            (Ok((im, next)), Ok((iv, q))) => im@ == iv && next == q,
            (Err(e), Err(se)) => e == se,
            _ => false,
        },
{
    let ghost b = bytes@;
    if pos > bytes.len() || bytes.len() - pos < 64 {
        return Err(ColmapError::UnexpectedEof);
    }
    let (id, p) = match read_u32(bytes, pos) {
        Ok(v) => v,
        Err(e) => {
            return Err(e);
        },
    };
    let (q0, p) = match read_u64(bytes, p) {
        Ok(v) => v,
        Err(e) => {
            return Err(e);
        },
    };
    let (q1, p) = match read_u64(bytes, p) {
        Ok(v) => v,
        Err(e) => {
            return Err(e);
        },
    };
    let (q2, p) = match read_u64(bytes, p) {
        Ok(v) => v,
        Err(e) => {
            return Err(e);
        },
    };
    let (q3, p) = match read_u64(bytes, p) {
        Ok(v) => v,
        Err(e) => {
            return Err(e);
        },
    };
    let (t0, p) = match read_u64(bytes, p) {
        Ok(v) => v,
        Err(e) => {
            return Err(e);
        },
    };
    let (t1, p) = match read_u64(bytes, p) {
        Ok(v) => v,
        Err(e) => {
            return Err(e);
        },
    };
    let (t2, p) = match read_u64(bytes, p) {
        Ok(v) => v,
        Err(e) => {
            return Err(e);
        },
    };
    let (camera_id, p) = match read_u32(bytes, p) {
        Ok(v) => v,
        Err(e) => {
            return Err(e);
        },
    };
    let (name, p) = match read_null_terminated_string(bytes, p) {
        Ok(v) => v,
        Err(e) => {
            return Err(e);
        },
    };
    let ghost z = p - 1;
    let (num_points2d, p) = match read_u64(bytes, p) {
        Ok(v) => v,
        Err(e) => {
            return Err(e);
        },
    };
    let mut xys: Vec<(u64, u64)> = Vec::new();
    let mut point3d_ids: Vec<i64> = Vec::new();
    let mut p = p;
    let mut k: u64 = 0;
    while k < num_points2d
        invariant
            k <= num_points2d,
            b == bytes@,
            pos + 64 <= b.len(),
            first_nul(b, pos + 64) == Some(z),
            valid_utf8(b.subrange(pos + 64, z)),
            z + 9 <= b.len(),
            num_points2d == le_u64(b, z + 1),
            p == z + 9 + 24 * k,
            p <= b.len(),
            xys@ == Seq::new(k as nat, |j: int| (le_u64(b, z + 9 + 24 * j), le_u64(b, z + 17 + 24 * j))),
            point3d_ids@ == Seq::new(k as nat, |j: int| le_i64(b, z + 25 + 24 * j)),
        decreases num_points2d - k,
    {
        let (x, q) = match read_u64(bytes, p) {
            Ok(v) => v,
            Err(e) => {
                return Err(e);
            },
        };
        let (y, q) = match read_u64(bytes, q) {
            Ok(v) => v,
            Err(e) => {
                return Err(e);
            },
        };
        let (point3d_id, q) = match read_i64(bytes, q) {
            Ok(v) => v,
            Err(e) => {
                return Err(e);
            },
        };
        xys.push((x, y));
        point3d_ids.push(point3d_id);
        p = q;
        k = k + 1;
        proof {
            assert(xys@ =~= Seq::new(k as nat, |j: int| (le_u64(b, z + 9 + 24 * j), le_u64(b, z + 17 + 24 * j))));
            assert(point3d_ids@ =~= Seq::new(k as nat, |j: int| le_i64(b, z + 25 + 24 * j)));
        }
    }
    let im = Image { id, qvec: [q0, q1, q2, q3], tvec: [t0, t1, t2], camera_id, name, xys, point3d_ids };
    proof {
        assert(im.qvec@ =~= Seq::new(4, |k: int| le_u64(b, pos + 4 + 8 * k)));
        assert(im.tvec@ =~= Seq::new(3, |k: int| le_u64(b, pos + 36 + 8 * k)));
    }
    Ok((im, p))
}

/// The 3D point record at `pos`, and the position after it.
pub fn read_point3d(bytes: &[u8], pos: usize) -> (r: Result<(Point3D, usize), ColmapError>)
    ensures
        match (r, point3d_at(bytes@, pos as int)) {
            (Ok((pt, next)), Ok((pv, q))) => pt@ == pv && next == q,
            (Err(e), Err(se)) => e == se,
            _ => false,
        },
{
    let ghost b = bytes@;
    if pos > bytes.len() || bytes.len() - pos < 51 {
        return Err(ColmapError::UnexpectedEof);
    }
    let (id, p) = match read_u64(bytes, pos) {
        Ok(v) => v,
        Err(e) => {
            return Err(e);
        },
    };
    let (x, p) = match read_u64(bytes, p) {
        Ok(v) => v,
        Err(e) => {
            return Err(e);
        },
    };
    let (y, p) = match read_u64(bytes, p) {
        Ok(v) => v,
        Err(e) => {
            return Err(e);
        },
    };
    let (z, p) = match read_u64(bytes, p) {
        Ok(v) => v,
        Err(e) => {
            return Err(e);
        },
    };
    let (r, p) = match read_u8(bytes, p) {
        Ok(v) => v,
        Err(e) => {
            return Err(e);
        },
    };
    let (g, p) = match read_u8(bytes, p) {
        Ok(v) => v,
        Err(e) => {
            return Err(e);
        },
    };
    let (bl, p) = match read_u8(bytes, p) {
        Ok(v) => v,
        Err(e) => {
            return Err(e);
        },
    };
    let (error, p) = match read_u64(bytes, p) {
        Ok(v) => v,
        Err(e) => {
            return Err(e);
        },
    };
    let (track_length, p) = match read_u64(bytes, p) {
        Ok(v) => v,
        Err(e) => {
            return Err(e);
        },
    };
    let mut track: Vec<(ImageId, i32)> = Vec::new();
    let mut p = p;
    let mut k: u64 = 0;
    while k < track_length
        invariant
            k <= track_length,
            b == bytes@,
            pos + 51 <= b.len(),
            track_length == le_u64(b, pos + 43),
            p == pos + 51 + 8 * k,
            p <= b.len(),
            track@ == Seq::new(k as nat, |j: int| (le_u32(b, pos + 51 + 8 * j), le_i32(b, pos + 55 + 8 * j))),
        decreases track_length - k,
    {
        let (image_id, q) = match read_u32(bytes, p) {
            Ok(v) => v,
            Err(e) => {
                return Err(e);
            },
        };
        let (point2d_idx, q) = match read_i32(bytes, q) {
            Ok(v) => v,
            Err(e) => {
                return Err(e);
            },
        };
        track.push((image_id, point2d_idx));
        p = q;
        k = k + 1;
        proof {
            assert(track@ =~= Seq::new(k as nat, |j: int| (le_u32(b, pos + 51 + 8 * j), le_i32(b, pos + 55 + 8 * j))));
        }
    }
    let pt = Point3D { id, xyz: [x, y, z], rgb: [r, g, bl], error, track };
    proof {
        assert(pt.xyz@ =~= Seq::new(3, |k: int| le_u64(b, pos + 8 + 8 * k)));
        assert(pt.rgb@ =~= Seq::new(3, |k: int| b[pos + 32 + k]));
    }
    Ok((pt, p))
}

/// The first `n` camera records, which start after the 8-byte count, and the position after
/// them; or the error of the first record that does not decode.
pub open spec fn cameras_prefix(b: Seq<u8>, n: nat) -> Result<(Seq<CameraView>, int), ColmapError>
    decreases n,
{
    if n == 0 {
        Ok((Seq::empty(), 8))
    } else {
        match cameras_prefix(b, (n - 1) as nat) {
            Err(e) => Err(e),
            Ok((rs, p)) => match camera_at(b, p) {
                Err(e) => Err(e),
                Ok((rec, q)) => Ok((rs.push(rec), q)),
            },
        }
    }
}

/// The records by id; a later record replaces an earlier one with the same id.
pub open spec fn camera_map(rs: Seq<CameraView>) -> Map<CameraId, CameraView>
    decreases rs.len(),
{
    if rs.len() == 0 {
        Map::empty()
    } else {
        camera_map(rs.drop_last()).insert(rs.last().id, rs.last())
    }
}

/// The content of a `cameras.bin` file: a little-endian `u64` count, then that many records.
pub open spec fn cameras_bin(b: Seq<u8>) -> Result<Map<CameraId, CameraView>, ColmapError> {
    if b.len() < 8 {
        Err(ColmapError::UnexpectedEof)
    } else {
        match cameras_prefix(b, le_u64(b, 0) as nat) {
            Err(e) => Err(e),
            Ok((rs, _)) => Ok(camera_map(rs)),
        }
    }
}

proof fn lemma_cameras_error_stays(b: Seq<u8>, k: nat, e: ColmapError, n: nat)
    requires
        cameras_prefix(b, k) == Err::<(Seq<CameraView>, int), ColmapError>(e),
        k <= n,
    ensures
        cameras_prefix(b, n) == Err::<(Seq<CameraView>, int), ColmapError>(e),
    decreases n - k,
{
    if k < n {
        lemma_cameras_error_stays(b, k, e, (n - 1) as nat);
    }
}

/// The camera records of a `cameras.bin` file, by id.
pub fn parse_cameras_bin(bytes: &[u8]) -> (r: Result<HashMap<CameraId, Camera>, ColmapError>)
    ensures
        match (r, cameras_bin(bytes@)) {
            (Ok(m), Ok(sm)) => m@.map_values(|x: Camera| x@) == sm,
            (Err(e), Err(se)) => e == se,
            _ => false,
        },
{
    let ghost b = bytes@;
    let (count, p) = match read_u64(bytes, 0) {
        Ok(v) => v,
        Err(e) => {
            return Err(e);
        },
    };
    let mut records: HashMap<CameraId, Camera> = HashMap::new();
    let ghost mut rs: Seq<CameraView> = Seq::empty();
    let mut p = p;
    let mut k: u64 = 0;
    proof {
        assert(records@.map_values(|x: Camera| x@) =~= camera_map(rs));
    }
    while k < count
        invariant
            k <= count,
            b == bytes@,
            b.len() >= 8,
            count == le_u64(b, 0),
            cameras_prefix(b, k as nat) == Ok::<(Seq<CameraView>, int), ColmapError>((rs, p as int)),
            records@.map_values(|x: Camera| x@) == camera_map(rs),
        decreases count - k,
    {
        let (rec, q) = match read_camera(bytes, p) {
            Ok(v) => v,
            Err(e) => {
                proof {
                    assert(cameras_prefix(b, (k + 1) as nat) == Err::<(Seq<CameraView>, int), ColmapError>(e));
                    lemma_cameras_error_stays(b, (k + 1) as nat, e, count as nat);
                }
                return Err(e);
            },
        };
        proof {
            let ghost rv = rec@;
            assert(cameras_prefix(b, (k + 1) as nat) == Ok::<(Seq<CameraView>, int), ColmapError>((rs.push(rv), q as int)));
            assert(rs.push(rv).drop_last() =~= rs);
            rs = rs.push(rv);
        }
        let ghost before = records@;
        records.insert(rec.id, rec);
        proof {
            assert(records@.map_values(|x: Camera| x@) =~= before.map_values(|x: Camera| x@).insert(rs.last().id, rs.last()));
        }
        p = q;
        k = k + 1;
    }
    Ok(records)
}

/// The first `n` image records, which start after the 8-byte count, and the position after
/// them; or the error of the first record that does not decode.
pub open spec fn images_prefix(b: Seq<u8>, n: nat) -> Result<(Seq<ImageView>, int), ColmapError>
    decreases n,
{
    if n == 0 {
        Ok((Seq::empty(), 8))
    } else {
        match images_prefix(b, (n - 1) as nat) {
            Err(e) => Err(e),
            Ok((rs, p)) => match image_at(b, p) {
                Err(e) => Err(e),
                Ok((rec, q)) => Ok((rs.push(rec), q)),
            },
        }
    }
}

/// The records by id; a later record replaces an earlier one with the same id.
pub open spec fn image_map(rs: Seq<ImageView>) -> Map<ImageId, ImageView>
    decreases rs.len(),
{
    if rs.len() == 0 {
        Map::empty()
    } else {
        image_map(rs.drop_last()).insert(rs.last().id, rs.last())
    }
}

/// The content of an `images.bin` file: a little-endian `u64` count, then that many records.
pub open spec fn images_bin(b: Seq<u8>) -> Result<Map<ImageId, ImageView>, ColmapError> {
    if b.len() < 8 {
        Err(ColmapError::UnexpectedEof)
    } else {
        match images_prefix(b, le_u64(b, 0) as nat) {
            Err(e) => Err(e),
            Ok((rs, _)) => Ok(image_map(rs)),
        }
    }
}

proof fn lemma_images_error_stays(b: Seq<u8>, k: nat, e: ColmapError, n: nat)
    requires
        images_prefix(b, k) == Err::<(Seq<ImageView>, int), ColmapError>(e),
        k <= n,
    ensures
        images_prefix(b, n) == Err::<(Seq<ImageView>, int), ColmapError>(e),
    decreases n - k,
{
    if k < n {
        lemma_images_error_stays(b, k, e, (n - 1) as nat);
    }
}

/// The image records of an `images.bin` file, by id.
pub fn parse_images_bin(bytes: &[u8]) -> (r: Result<HashMap<ImageId, Image>, ColmapError>)
    ensures
        match (r, images_bin(bytes@)) {
            (Ok(m), Ok(sm)) => m@.map_values(|x: Image| x@) == sm,
            (Err(e), Err(se)) => e == se,
            _ => false,
        },
{
    let ghost b = bytes@;
    let (count, p) = match read_u64(bytes, 0) {
        Ok(v) => v,
        Err(e) => {
            return Err(e);
        },
    };
    let mut records: HashMap<ImageId, Image> = HashMap::new();
    let ghost mut rs: Seq<ImageView> = Seq::empty();
    let mut p = p;
    let mut k: u64 = 0;
    proof {
        assert(records@.map_values(|x: Image| x@) =~= image_map(rs));
    }
    while k < count
        invariant
            k <= count,
            b == bytes@,
            b.len() >= 8,
            count == le_u64(b, 0),
            images_prefix(b, k as nat) == Ok::<(Seq<ImageView>, int), ColmapError>((rs, p as int)),
            records@.map_values(|x: Image| x@) == image_map(rs),
        decreases count - k,
    {
        let (rec, q) = match read_image(bytes, p) {
            Ok(v) => v,
            Err(e) => {
                proof {
                    assert(images_prefix(b, (k + 1) as nat) == Err::<(Seq<ImageView>, int), ColmapError>(e));
                    lemma_images_error_stays(b, (k + 1) as nat, e, count as nat);
                }
                return Err(e);
            },
        };
        proof {
            let ghost rv = rec@;
            assert(images_prefix(b, (k + 1) as nat) == Ok::<(Seq<ImageView>, int), ColmapError>((rs.push(rv), q as int)));
            assert(rs.push(rv).drop_last() =~= rs);
            rs = rs.push(rv);
        }
        let ghost before = records@;
        records.insert(rec.id, rec);
        proof {
            assert(records@.map_values(|x: Image| x@) =~= before.map_values(|x: Image| x@).insert(rs.last().id, rs.last()));
        }
        p = q;
        k = k + 1;
    }
    Ok(records)
}

/// The first `n` 3D point records, which start after the 8-byte count, and the position after
/// them; or the error of the first record that does not decode.
pub open spec fn points3d_prefix(b: Seq<u8>, n: nat) -> Result<(Seq<Point3DView>, int), ColmapError>
    decreases n,
{
    if n == 0 {
        Ok((Seq::empty(), 8))
    } else {
        match points3d_prefix(b, (n - 1) as nat) {
            Err(e) => Err(e),
            Ok((rs, p)) => match point3d_at(b, p) {
                Err(e) => Err(e),
                Ok((rec, q)) => Ok((rs.push(rec), q)),
            },
        }
    }
}

/// The records by id; a later record replaces an earlier one with the same id.
pub open spec fn point3d_map(rs: Seq<Point3DView>) -> Map<Point3DId, Point3DView>
    decreases rs.len(),
{
    if rs.len() == 0 {
        Map::empty()
    } else {
        point3d_map(rs.drop_last()).insert(rs.last().id, rs.last())
    }
}

/// The content of a `points3D.bin` file: a little-endian `u64` count, then that many records.
pub open spec fn points3d_bin(b: Seq<u8>) -> Result<Map<Point3DId, Point3DView>, ColmapError> {
    if b.len() < 8 {
        Err(ColmapError::UnexpectedEof)
    } else {
        match points3d_prefix(b, le_u64(b, 0) as nat) {
            Err(e) => Err(e),
            Ok((rs, _)) => Ok(point3d_map(rs)),
        }
    }
}

proof fn lemma_points3d_error_stays(b: Seq<u8>, k: nat, e: ColmapError, n: nat)
    requires
        points3d_prefix(b, k) == Err::<(Seq<Point3DView>, int), ColmapError>(e),
        k <= n,
    ensures
        points3d_prefix(b, n) == Err::<(Seq<Point3DView>, int), ColmapError>(e),
    decreases n - k,
{
    if k < n {
        lemma_points3d_error_stays(b, k, e, (n - 1) as nat);
    }
}

/// The 3D point records of a `points3D.bin` file, by id.
pub fn parse_points3d_bin(bytes: &[u8]) -> (r: Result<HashMap<Point3DId, Point3D>, ColmapError>)
    ensures
        match (r, points3d_bin(bytes@)) {
            (Ok(m), Ok(sm)) => m@.map_values(|x: Point3D| x@) == sm,
            (Err(e), Err(se)) => e == se,
            _ => false,
        },
{
    let ghost b = bytes@;
    let (count, p) = match read_u64(bytes, 0) {
        Ok(v) => v,
        Err(e) => {
            return Err(e);
        },
    };
    let mut records: HashMap<Point3DId, Point3D> = HashMap::new();
    let ghost mut rs: Seq<Point3DView> = Seq::empty();
    let mut p = p;
    let mut k: u64 = 0;
    proof {
        assert(records@.map_values(|x: Point3D| x@) =~= point3d_map(rs));
    }
    while k < count
        invariant
            k <= count,
            b == bytes@,
            b.len() >= 8,
            count == le_u64(b, 0),
            points3d_prefix(b, k as nat) == Ok::<(Seq<Point3DView>, int), ColmapError>((rs, p as int)),
            records@.map_values(|x: Point3D| x@) == point3d_map(rs),
        decreases count - k,
    {
        let (rec, q) = match read_point3d(bytes, p) {
            Ok(v) => v,
            Err(e) => {
                proof {
                    assert(points3d_prefix(b, (k + 1) as nat) == Err::<(Seq<Point3DView>, int), ColmapError>(e));
                    lemma_points3d_error_stays(b, (k + 1) as nat, e, count as nat);
                }
                return Err(e);
            },
        };
        proof {
            let ghost rv = rec@;
            assert(points3d_prefix(b, (k + 1) as nat) == Ok::<(Seq<Point3DView>, int), ColmapError>((rs.push(rv), q as int)));
            assert(rs.push(rv).drop_last() =~= rs);
            rs = rs.push(rv);
        }
        let ghost before = records@;
        records.insert(rec.id, rec);
        proof {
            assert(records@.map_values(|x: Point3D| x@) =~= before.map_values(|x: Point3D| x@).insert(rs.last().id, rs.last()));
        }
        p = q;
        k = k + 1;
    }
    Ok(records)
}

} // verus!
