use atelier::color::{convert_rgba8, ColorError, ColorProfile, Intent};

/// sRGB→sRGB is identity within 1 LSB; alpha untouched.
#[test]
fn srgb_to_srgb_roundtrip_is_identity() {
    let mut px: Vec<u8> = vec![
        255, 0, 0, 255, //
        0, 255, 0, 128, //
        0, 0, 255, 0, //
        12, 34, 56, 200,
    ];
    let orig = px.clone();
    convert_rgba8(&mut px, &ColorProfile::srgb(), &ColorProfile::srgb(), Intent::default()).unwrap();
    for (i, (a, b)) in orig.iter().zip(&px).enumerate() {
        if i % 4 == 3 {
            assert_eq!(a, b, "alpha byte {i} must pass through exactly");
        } else {
            assert!((*a as i16 - *b as i16).abs() <= 1, "byte {i}: {a} vs {b}");
        }
    }
}

#[test]
fn bad_icc_bytes_error_cleanly() {
    assert!(ColorProfile::from_icc(b"not an icc profile").is_err());
}

#[test]
fn empty_icc_bytes_are_a_bad_profile() {
    assert!(matches!(ColorProfile::from_icc(&[]), Err(ColorError::BadProfile(_))));
}

#[test]
fn every_intent_converts_srgb_and_keeps_alpha() {
    for intent in [Intent::Perceptual, Intent::RelativeColorimetric, Intent::Saturation, Intent::AbsoluteColorimetric] {
        let mut px = vec![10u8, 200, 30, 7, 0, 0, 0, 255];
        convert_rgba8(&mut px, &ColorProfile::srgb(), &ColorProfile::srgb(), intent).unwrap();
        assert_eq!(px.len(), 8);
        assert_eq!((px[3], px[7]), (7, 255), "{intent:?}");
    }
}
