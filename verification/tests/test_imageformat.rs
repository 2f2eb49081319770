use shrinky_rs::ImageFormat;
use std::str::FromStr;

#[test]
fn test_imageformat() {
    let expected = [
        ("jpg", Some(ImageFormat::Jpg)),
        ("jpeg", Some(ImageFormat::Jpg)),
        ("png", Some(ImageFormat::Png)),
        ("webp", Some(ImageFormat::Webp)),
        ("avif", Some(ImageFormat::Avif)),
        ("bmp", None),
        ("tiff", None),
    ];

    for (input, expected) in expected.iter() {
        let result = input.parse::<ImageFormat>();
        match expected {
            Some(fmt) => {
                assert!(result.is_ok(), "Expected Ok for input '{}'", input);
                let ofmt = result.expect("Failed to unwrap OutputFormat");
                assert_eq!(ofmt, *fmt, "OutputFormat mismatch for input '{}'", input);
            }
            None => {
                assert!(result.is_err(), "Expected Err for input '{}'", input);
            }
        }
    }

    assert_eq!(ImageFormat::Jpg.display_name(), "JPG");

    assert_eq!(
        <ImageFormat as FromStr>::from_str("testfile.jpg").expect("Failed to parse from filename"),
        ImageFormat::Jpg
    );

    assert_eq!(
        <ImageFormat as FromStr>::from_str("jpeg").expect("Failed to parse from filename"),
        ImageFormat::Jpg
    );
    assert_eq!(
        <ImageFormat as FromStr>::from_str("jpg").expect("Failed to parse from filename"),
        ImageFormat::Jpg
    );

    assert!(<ImageFormat as FromStr>::from_str("cheese").is_err());

    assert!(ImageFormat::all().len() == 6);

    assert!(ImageFormat::Jpg.is_native_image_format());
    assert!(!ImageFormat::Avif.is_native_image_format());

    // test that we can convert to the codec crate's own format enum
    for (fmt, expected_result) in [
        (ImageFormat::Jpg, true),
        (ImageFormat::Png, true),
        (ImageFormat::Webp, true),
        (ImageFormat::Avif, false),
        (ImageFormat::Heic, false),
        (ImageFormat::Heif, false),
    ] {
        let test_format: Result<image::ImageFormat, shrinky_rs::Error> = fmt.to_native_format();
        if expected_result {
            assert!(
                test_format.is_ok(),
                "Expected Ok converting supported format {:?}",
                fmt
            );
        } else {
            assert!(
                test_format.is_err(),
                "Expected Err converting unsupported format {:?}",
                fmt
            );
        }
    }

    let test_format: Result<image::ImageFormat, shrinky_rs::Error> =
        ImageFormat::Heic.to_native_format();
    test_format.expect_err("Expected error converting unsupported format");
}

#[test]
fn test_imageformat_names() {
    // The ASCII-lowercasing really lowercases: uppercase spellings parse.
    assert_eq!(
        ImageFormat::from_str("JPG").expect("uppercase name should parse"),
        ImageFormat::Jpg
    );
    assert_eq!(
        ImageFormat::from_str("photo.JPEG").expect("uppercase extension should parse"),
        ImageFormat::Jpg
    );
    assert_eq!(
        ImageFormat::try_from_filename("a.b.heic").expect("last extension wins"),
        ImageFormat::Heic
    );
    assert_eq!(
        ImageFormat::try_from_filename(".webp").expect("a bare dotted extension parses"),
        ImageFormat::Webp
    );
    match ImageFormat::try_from_filename("archive.tar.gz") {
        Err(shrinky_rs::Error::UnsupportedFormat(text)) => assert_eq!(text, "gz"),
        other => panic!("expected UnsupportedFormat, got {:?}", other),
    }
    match ImageFormat::parse_text("cheese") {
        Err(shrinky_rs::Error::UnsupportedFormat(text)) => assert_eq!(text, "cheese"),
        other => panic!("expected UnsupportedFormat, got {:?}", other),
    }

    for fmt in ImageFormat::all() {
        assert_eq!(
            ImageFormat::from_str(fmt.extension()).expect("every extension parses"),
            fmt,
            "extension of {:?} should name it again",
            fmt
        );
        assert_eq!(fmt.display_name(), fmt.extension().to_uppercase());
    }
}
