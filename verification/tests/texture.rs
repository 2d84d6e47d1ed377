use path_tracer::scalar::{Scalar, Vec3};
use path_tracer::texture::{decode_texels, Samples, TextureError, TextureFormat, Texture};

fn s(x: f32) -> Scalar {
    Scalar::from_bits(x.to_bits())
}

fn grey(x: f32) -> Vec3 {
    Vec3::new(s(x), s(x), s(x))
}

#[test]
fn formats_state_channels_and_sample_width() {
    let table = [
        (TextureFormat::R8, Some(1), 1),
        (TextureFormat::R8G8, None, 1),
        (TextureFormat::R8G8B8, Some(3), 1),
        (TextureFormat::R8G8B8A8, Some(4), 1),
        (TextureFormat::R16, None, 2),
        (TextureFormat::R16G16, None, 2),
        (TextureFormat::R16G16B16, Some(3), 2),
        (TextureFormat::R16G16B16A16, Some(4), 2),
        (TextureFormat::R32G32B32Float, Some(3), 4),
        (TextureFormat::R32G32B32A32Float, Some(4), 4),
    ];
    for (format, channels, bytes) in table {
        assert_eq!(format.channels(), channels, "{format:?}");
        assert_eq!(format.sample_bytes(), bytes, "{format:?}");
    }
}

#[test]
fn decode_texels_takes_bytes_as_they_are() {
    let pixels = vec![1u8, 2, 3, 4, 5, 6];
    let t = decode_texels(TextureFormat::R8G8B8, 2, 1, &pixels).unwrap();
    assert_eq!((t.width, t.height, t.channels), (2, 1, 3));
    match t.samples {
        Samples::Bytes(b) => assert_eq!(b, pixels),
        other => panic!("{other:?}"),
    }
    let t = decode_texels(TextureFormat::R8, 3, 2, &pixels).unwrap();
    assert_eq!(t.channels, 1);
    let t = decode_texels(TextureFormat::R8G8B8A8, 1, 1, &pixels).unwrap();
    assert_eq!(t.channels, 4);
}

#[test]
fn decode_texels_regroups_sixteen_bit_samples() {
    let halves = [258u16, 0, 65_535, 4660, 7, 1];
    let pixels: Vec<u8> = halves.iter().flat_map(|h| h.to_ne_bytes()).collect();
    let t = decode_texels(TextureFormat::R16G16B16, 2, 1, &pixels).unwrap();
    match t.samples {
        Samples::Halves(h) => assert_eq!(h, halves),
        other => panic!("{other:?}"),
    }
}

#[test]
fn decode_texels_regroups_float_samples() {
    let floats = [0.5f32, 1.0, 0.25, 1.0];
    let pixels: Vec<u8> = floats.iter().flat_map(|x| x.to_ne_bytes()).collect();
    let t = decode_texels(TextureFormat::R32G32B32A32Float, 1, 1, &pixels).unwrap();
    assert_eq!(t.channels, 4);
    match t.samples {
        Samples::Words(w) => {
            assert_eq!(w.iter().map(|b| f32::from_bits(*b)).collect::<Vec<_>>(), floats)
        },
        other => panic!("{other:?}"),
    }
}

#[test]
fn decode_texels_refuses_formats_outside_the_set() {
    for format in [TextureFormat::R8G8, TextureFormat::R16, TextureFormat::R16G16] {
        assert_eq!(
            decode_texels(format, 1, 1, &vec![0; 16]).err(),
            Some(TextureError::UnsupportedTextureFormat)
        );
    }
}

#[test]
fn decode_texels_refuses_broken_samples() {
    assert_eq!(
        decode_texels(TextureFormat::R16G16B16, 1, 1, &vec![0; 7]).err(),
        Some(TextureError::RaggedSamples)
    );
    assert_eq!(
        decode_texels(TextureFormat::R32G32B32Float, 1, 1, &vec![0; 13]).err(),
        Some(TextureError::RaggedSamples)
    );
}

#[test]
fn decode_texels_refuses_too_few_samples() {
    assert_eq!(
        decode_texels(TextureFormat::R8G8B8, 2, 1, &vec![0; 5]).err(),
        Some(TextureError::BufferTooSmall)
    );
    assert_eq!(
        decode_texels(TextureFormat::R16G16B16A16, 1, 2, &vec![0; 14]).err(),
        Some(TextureError::BufferTooSmall)
    );
    assert_eq!(
        decode_texels(TextureFormat::R8, u32::MAX, u32::MAX, &vec![0; 8]).err(),
        Some(TextureError::BufferTooSmall)
    );
    assert!(decode_texels(TextureFormat::R8G8B8, 2, 1, &vec![0; 9]).is_ok());
    assert!(decode_texels(TextureFormat::R8G8B8, 0, 7, &vec![]).is_ok());
}

#[test]
fn texture_new_needs_one_colour_per_pixel() {
    assert!(Texture::new(2, 2, vec![grey(0.0); 4]).is_some());
    assert!(Texture::new(2, 2, vec![grey(0.0); 3]).is_none());
    assert!(Texture::new(0, 2, vec![]).is_none());
    assert!(Texture::new(2, 0, vec![]).is_none());
    let t = Texture { width: 2, height: 2, rgb: vec![grey(0.0); 5] };
    assert!(!t.check());
}

#[test]
fn texel_repeats_in_both_directions() {
    let rgb: Vec<Vec3> = (0..6).map(|i| grey(i as f32)).collect();
    let t = Texture::new(3, 2, rgb).unwrap();
    assert_eq!(t.texel(0, 0), grey(0.0));
    assert_eq!(t.texel(2, 1), grey(5.0));
    assert_eq!(t.texel(3, 0), grey(0.0));
    assert_eq!(t.texel(4, 2), grey(1.0));
    assert_eq!(t.texel(-1, 0), grey(2.0));
    assert_eq!(t.texel(0, -1), grey(3.0));
    assert_eq!(t.texel(-4, -3), grey(5.0));
    assert_eq!(t.texel(i64::MIN, i64::MAX), t.texel(i64::MIN.rem_euclid(3), 1));
}
