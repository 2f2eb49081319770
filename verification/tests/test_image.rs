use shrinky_rs::ImageFormat;
use shrinky_rs::imagedata::{Geometry, Image};

fn sample_image(width: u32, height: u32) -> Image {
    Image {
        original_file_size: 0,
        input_filename: "tests/test_images/sample.png".to_string(),
        original_geometry: Geometry::new(width, height),
        target_geometry: None,
        output_format: None,
        image: image::DynamicImage::new_rgb8(width, height),
    }
}

#[test]
fn test_output_filename_never_jpeg() {
    let base_image = Image {
        original_file_size: 0,
        input_filename: "tests/test_images/sample.jpeg".to_string(),
        original_geometry: Geometry::new(1, 1),
        target_geometry: None,
        output_format: None,
        image: image::DynamicImage::new_rgba8(1, 1),
    };

    assert_eq!(
        base_image.output_filename(),
        "tests/test_images/sample.jpg".to_string(),
        "Output filename should normalize .jpeg to .jpg"
    );

    let image_with_output = Image {
        output_format: Some(ImageFormat::Jpg),
        ..base_image.clone()
    };

    assert_eq!(
        image_with_output.output_filename(),
        "tests/test_images/sample.jpg".to_string(),
        "Output filename should use .jpg for JPG output"
    );
}

#[test]
fn test_output_filename_extensions() {
    let mut img = sample_image(1, 1);
    img = img.with_output_format(ImageFormat::Webp);
    assert_eq!(img.output_filename(), "tests/test_images/sample.webp".to_string());

    let mut no_ext = sample_image(1, 1);
    no_ext.input_filename = "photo".to_string();
    no_ext = no_ext.with_output_format(ImageFormat::Heic);
    assert_eq!(
        no_ext.output_filename(),
        "photo.heic".to_string(),
        "an extension is appended when the name has none"
    );

    let mut unknown = sample_image(1, 1);
    unknown.input_filename = "notes.txt".to_string();
    assert_eq!(
        unknown.output_filename(),
        "notes.txt".to_string(),
        "an unknown extension without a chosen format stays as it is"
    );
}

#[test]
fn test_will_overwrite() {
    let img = sample_image(1, 1);
    assert!(
        img.will_overwrite(),
        "without an output format the input would be overwritten"
    );

    assert!(img.clone().with_output_format(ImageFormat::Png).will_overwrite());
    assert!(!img.clone().with_output_format(ImageFormat::Jpg).will_overwrite());
    assert!(!img.clone().with_output_format(ImageFormat::Webp).will_overwrite());

    let mut upper = sample_image(1, 1);
    upper.input_filename = "photo.PNG".to_string();
    assert!(
        upper.with_output_format(ImageFormat::Png).will_overwrite(),
        "extension case does not matter"
    );

    let mut jpeg_named = sample_image(1, 1);
    jpeg_named.input_filename = "photo.jpeg".to_string();
    assert!(
        !jpeg_named.with_output_format(ImageFormat::Jpg).will_overwrite(),
        "a .jpeg input does not match the canonical .jpg"
    );

    let mut heif_named = sample_image(1, 1);
    heif_named.input_filename = "photo.heic".to_string();
    assert!(
        heif_named.clone().with_output_format(ImageFormat::Heif).will_overwrite(),
        "HEIF and HEIC count as one family"
    );
    assert!(heif_named.with_output_format(ImageFormat::Heic).will_overwrite());

    let mut no_ext = sample_image(1, 1);
    no_ext.input_filename = "photo".to_string();
    assert!(!no_ext.with_output_format(ImageFormat::Png).will_overwrite());
}

#[test]
fn test_final_geometry() {
    let img = sample_image(450, 800);
    assert_eq!(img.final_geometry(), Geometry::new(450, 800));

    let both = img.clone().with_target_geometry(Geometry::new(400, 400));
    assert_eq!(both.final_geometry(), Geometry::new(400, 400));

    let width_only = img.clone().with_target_geometry(Geometry {
        width: Some(1234),
        height: None,
    });
    assert_eq!(
        width_only.final_geometry(),
        Geometry::new(1234, 800 * 1234 / 450),
        "the open height scales in proportion"
    );

    let height_only = img.clone().with_target_geometry(Geometry {
        width: None,
        height: Some(400),
    });
    assert_eq!(
        height_only.final_geometry(),
        Geometry::new(450 * 400 / 800, 400),
        "the open width scales in proportion"
    );

    let empty_target = img.clone().with_target_geometry(Geometry::empty());
    assert_eq!(empty_target.final_geometry(), Geometry::new(450, 800));
}

#[test]
fn test_resize() {
    let mut img = sample_image(4, 2);
    let same = img.resize().expect("resize without a target succeeds");
    assert_eq!(same, img.image, "resizing without changing geometry is a no-op");

    img = img.with_target_geometry(Geometry::new(2, 1));
    let resized = img.resize().expect("resize to a smaller geometry succeeds");
    assert_eq!(resized.width(), 2);
    assert_eq!(resized.height(), 1);
    assert_eq!(
        img.image.width(),
        4,
        "the stored image itself is not replaced"
    );
}

#[test]
fn test_output_native_format() {
    let img = sample_image(3, 2);
    let bytes = img
        .output_native_format(ImageFormat::Png)
        .expect("a PNG encode of a small image succeeds");
    assert!(!bytes.is_empty());
    let decoded = image::load_from_memory(&bytes).expect("the encoded PNG decodes again");
    assert_eq!(decoded.width(), 3);
    assert_eq!(decoded.height(), 2);

    match img.output_native_format(ImageFormat::Heif) {
        Err(shrinky_rs::Error::ImageEncodingError(_)) => {}
        other => panic!(
            "a next-gen format is no native encode, got {:?}",
            other.map(|v| v.len())
        ),
    }
}

#[test]
fn test_heif_plane_data() {
    let raw: Vec<u8> = vec![
        10, 20, 30, //
        40, 50, 60, //
        70, 80, 90, //
        11, 21, 31, //
        41, 51, 61, //
        71, 81, 91,
    ];
    let buffer = image::RgbImage::from_raw(3, 2, raw).expect("raw buffer fits 3x2");
    let img = Image {
        original_file_size: 0,
        input_filename: "planes.png".to_string(),
        original_geometry: Geometry::new(3, 2),
        target_geometry: None,
        output_format: None,
        image: image::DynamicImage::ImageRgb8(buffer),
    };

    let planes = img.heif_plane_data().expect("plane data of an RGB8 image");
    assert_eq!(planes.width, 3);
    assert_eq!(planes.height, 2);
    assert_eq!(planes.r, vec![10, 40, 70, 11, 41, 71]);
    assert_eq!(planes.g, vec![20, 50, 80, 21, 51, 81]);
    assert_eq!(planes.b, vec![30, 60, 90, 31, 61, 91]);

    let rgba_raw: Vec<u8> = vec![1, 2, 3, 255, 4, 5, 6, 255];
    let rgba = image::RgbaImage::from_raw(2, 1, rgba_raw).expect("raw buffer fits 2x1");
    let rgba_img = Image {
        original_file_size: 0,
        input_filename: "planes.png".to_string(),
        original_geometry: Geometry::new(2, 1),
        target_geometry: None,
        output_format: None,
        image: image::DynamicImage::ImageRgba8(rgba),
    };
    let rgba_planes = rgba_img.heif_plane_data().expect("plane data of an RGBA8 image");
    assert_eq!(rgba_planes.r, vec![1, 4]);
    assert_eq!(rgba_planes.g, vec![2, 5]);
    assert_eq!(rgba_planes.b, vec![3, 6]);

    let mismatched = img.with_target_geometry(Geometry::new(1, 1));
    match mismatched.heif_plane_data() {
        Err(shrinky_rs::Error::ImageEncodingError(_)) => {}
        _ => panic!("a target geometry away from the pixel buffer is an error"),
    }

    let luma = Image {
        original_file_size: 0,
        input_filename: "planes.png".to_string(),
        original_geometry: Geometry::new(1, 1),
        target_geometry: None,
        output_format: None,
        image: image::DynamicImage::ImageLuma8(image::GrayImage::from_raw(1, 1, vec![7]).unwrap()),
    };
    match luma.heif_plane_data() {
        Err(shrinky_rs::Error::ImageEncodingError(_)) => {}
        _ => panic!("a grayscale buffer has no RGB planes"),
    }
}

#[test]
fn test_pick_smallest() {
    let results = vec![
        (ImageFormat::Jpg, Some(vec![0u8; 5])),
        (ImageFormat::Png, Some(vec![0u8; 3])),
        (ImageFormat::Webp, None),
        (ImageFormat::Avif, Some(vec![0u8; 3])),
        (ImageFormat::Heic, Some(vec![0u8; 4])),
    ];
    let (fmt, data) = shrinky_rs::imagedata::pick_smallest(results).expect("one entry has data");
    assert_eq!(fmt, ImageFormat::Png, "the first smallest wins");
    assert_eq!(data.len(), 3);

    match shrinky_rs::imagedata::pick_smallest(vec![
        (ImageFormat::Jpg, None),
        (ImageFormat::Png, None),
    ]) {
        Err(shrinky_rs::Error::ImageEncodingError(_)) => {}
        _ => panic!("no data at all is an encoding error"),
    }

    match shrinky_rs::imagedata::pick_smallest(vec![]) {
        Err(shrinky_rs::Error::ImageEncodingError(_)) => {}
        _ => panic!("an empty list is an encoding error"),
    }
}
