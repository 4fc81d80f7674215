use rhi::colmap::{
    CameraModel, ColmapError, parse_cameras_bin, parse_images_bin, parse_points3d_bin,
};

fn u32le(out: &mut Vec<u8>, v: u32) {
    out.extend_from_slice(&v.to_le_bytes());
}
fn i32le(out: &mut Vec<u8>, v: i32) {
    out.extend_from_slice(&v.to_le_bytes());
}
fn u64le(out: &mut Vec<u8>, v: u64) {
    out.extend_from_slice(&v.to_le_bytes());
}
fn f64le(out: &mut Vec<u8>, v: f64) {
    out.extend_from_slice(&v.to_le_bytes());
}

fn camera(out: &mut Vec<u8>, id: i32, model: i32, width: u64, height: u64, params: &[f64]) {
    i32le(out, id);
    i32le(out, model);
    u64le(out, width);
    u64le(out, height);
    for p in params {
        f64le(out, *p);
    }
}

#[test]
fn camera_models_by_id() {
    assert_eq!(CameraModel::from_id(0), Ok(CameraModel::SimplePinhole));
    assert_eq!(CameraModel::from_id(4), Ok(CameraModel::OpenCV));
    assert_eq!(CameraModel::from_id(10), Ok(CameraModel::ThinPrismFisheye));
    assert_eq!(CameraModel::from_id(11), Err(ColmapError::UnknownCameraModel(11)));
    assert_eq!(CameraModel::from_id(-1), Err(ColmapError::UnknownCameraModel(-1)));
    assert_eq!(CameraModel::Pinhole.num_params(), 4);
    assert_eq!(CameraModel::FullOpenCV.num_params(), 12);
    assert_eq!(CameraModel::Fov.num_params(), 5);
}

#[test]
fn cameras_decode_with_their_parameters() {
    let mut b = Vec::new();
    u64le(&mut b, 2);
    camera(&mut b, 1, 1, 640, 480, &[500.0, 501.0, 320.0, 240.0]);
    camera(&mut b, 2, 0, 800, 600, &[700.0, 400.0, 300.0]);
    let cams = parse_cameras_bin(&b).unwrap();
    assert_eq!(cams.len(), 2);
    let c = &cams[&1];
    assert_eq!(c.model, CameraModel::Pinhole);
    assert_eq!((c.width, c.height), (640, 480));
    let params: Vec<f64> = c.params.iter().map(|p| f64::from_bits(*p)).collect();
    assert_eq!(params, vec![500.0, 501.0, 320.0, 240.0]);
    assert_eq!(cams[&2].params.len(), 3);
    assert_eq!(f64::from_bits(cams[&2].params[0]), 700.0);
}

#[test]
fn a_later_camera_replaces_one_with_the_same_id() {
    let mut b = Vec::new();
    u64le(&mut b, 2);
    camera(&mut b, 5, 0, 1, 1, &[1.0, 2.0, 3.0]);
    camera(&mut b, 5, 0, 2, 2, &[4.0, 5.0, 6.0]);
    let cams = parse_cameras_bin(&b).unwrap();
    assert_eq!(cams.len(), 1);
    assert_eq!(cams[&5].width, 2);
}

#[test]
fn cameras_report_unknown_models_and_truncation() {
    let mut b = Vec::new();
    u64le(&mut b, 1);
    camera(&mut b, 1, 42, 640, 480, &[]);
    assert_eq!(parse_cameras_bin(&b).err(), Some(ColmapError::UnknownCameraModel(42)));

    let mut b = Vec::new();
    u64le(&mut b, 1);
    camera(&mut b, 1, 1, 640, 480, &[1.0, 2.0, 3.0]); // Pinhole needs four
    assert_eq!(parse_cameras_bin(&b).err(), Some(ColmapError::UnexpectedEof));

    assert_eq!(parse_cameras_bin(&[1, 0, 0]).err(), Some(ColmapError::UnexpectedEof));
    let mut b = Vec::new();
    u64le(&mut b, 0);
    assert!(parse_cameras_bin(&b).unwrap().is_empty());
}

fn image(out: &mut Vec<u8>, id: i32, camera_id: i32, name: &[u8], points: &[(f64, f64, i64)]) {
    i32le(out, id);
    for q in [1.0, 0.0, 0.0, 0.0] {
        f64le(out, q);
    }
    for t in [0.5, -0.5, 2.0] {
        f64le(out, t);
    }
    i32le(out, camera_id);
    out.extend_from_slice(name);
    out.push(0);
    u64le(out, points.len() as u64);
    for (x, y, id) in points {
        f64le(out, *x);
        f64le(out, *y);
        out.extend_from_slice(&id.to_le_bytes());
    }
}

#[test]
fn images_decode_pose_name_and_keypoints() {
    let mut b = Vec::new();
    u64le(&mut b, 1);
    image(&mut b, 3, 1, b"frame_001.jpg", &[(10.5, 20.25, 7), (1.0, 2.0, -1)]);
    let images = parse_images_bin(&b).unwrap();
    let im = &images[&3];
    assert_eq!(im.name, "frame_001.jpg");
    assert_eq!(im.camera_id, 1);
    assert_eq!(f64::from_bits(im.qvec[0]), 1.0);
    assert_eq!(f64::from_bits(im.tvec[1]), -0.5);
    assert_eq!(im.xys.len(), 2);
    assert_eq!(f64::from_bits(im.xys[0].0), 10.5);
    assert_eq!(f64::from_bits(im.xys[0].1), 20.25);
    assert_eq!(im.point3d_ids, vec![7, -1]);
}

#[test]
fn images_report_bad_names_and_truncation() {
    let mut b = Vec::new();
    u64le(&mut b, 1);
    image(&mut b, 3, 1, &[0xff, 0xfe], &[]);
    assert_eq!(parse_images_bin(&b).err(), Some(ColmapError::InvalidUtf8));

    let mut b = Vec::new();
    u64le(&mut b, 1);
    image(&mut b, 3, 1, b"a.jpg", &[(1.0, 2.0, 3)]);
    b.truncate(b.len() - 1);
    assert_eq!(parse_images_bin(&b).err(), Some(ColmapError::UnexpectedEof));

    // A name that never ends.
    let mut b = Vec::new();
    u64le(&mut b, 1);
    i32le(&mut b, 1);
    b.extend_from_slice(&[0u8; 56]);
    i32le(&mut b, 1);
    b.extend_from_slice(b"no terminator");
    assert_eq!(parse_images_bin(&b).err(), Some(ColmapError::UnexpectedEof));
}

#[test]
fn points_decode_color_error_and_track() {
    let mut b = Vec::new();
    u64le(&mut b, 1);
    u64le(&mut b, 99);
    for c in [1.0, 2.0, 3.0] {
        f64le(&mut b, c);
    }
    b.extend_from_slice(&[255, 128, 0]);
    f64le(&mut b, 0.75);
    u64le(&mut b, 2);
    u32le(&mut b, 3);
    i32le(&mut b, 0);
    u32le(&mut b, 4);
    i32le(&mut b, 12);
    let points = parse_points3d_bin(&b).unwrap();
    let p = &points[&99];
    assert_eq!(p.rgb, [255, 128, 0]);
    assert_eq!(f64::from_bits(p.xyz[2]), 3.0);
    assert_eq!(f64::from_bits(p.error), 0.75);
    assert_eq!(p.track, vec![(3, 0), (4, 12)]);

    b.truncate(b.len() - 4);
    assert_eq!(parse_points3d_bin(&b).err(), Some(ColmapError::UnexpectedEof));
}

#[test]
fn errors_are_reported_in_the_words_of_the_readers() {
    let unknown = CameraModel::from_id(11).unwrap_err();
    assert_eq!(unknown.message(), "unknown COLMAP camera model id 11");
    assert!(unknown.is_invalid_data());
    assert_eq!(ColmapError::UnknownCameraModel(-3).message(), "unknown COLMAP camera model id -3");
    assert_eq!(ColmapError::UnexpectedEof.message(), "failed to fill whole buffer");
    assert!(!ColmapError::UnexpectedEof.is_invalid_data());
    assert!(ColmapError::InvalidUtf8.is_invalid_data());
}
