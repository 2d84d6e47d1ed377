use path_tracer::config::ConfigError;
use path_tracer::target::RenderTarget;

#[test]
fn target_new_is_black_and_transparent() {
    let t = RenderTarget::new(3, 2).unwrap();
    assert_eq!(t.canv_width, 3);
    assert_eq!(t.canv_height, 2);
    assert_eq!(t.buff, vec![0u8; 24]);
    assert_eq!(RenderTarget::new(0, 5).unwrap().buff.len(), 0);
}

#[test]
fn target_new_refuses_bad_dimensions() {
    assert_eq!(RenderTarget::new(-1, 2).err(), Some(ConfigError::NegativeDimension));
    assert_eq!(RenderTarget::new(2, -1).err(), Some(ConfigError::NegativeDimension));
    assert_eq!(RenderTarget::new(65_536, 32_768).err(), Some(ConfigError::TargetTooLarge));
}

#[test]
fn target_pixels_are_numbered_row_by_row() {
    let t = RenderTarget::new(3, 2).unwrap();
    assert_eq!(t.chunk_to_pix(0), Some((0, 0)));
    assert_eq!(t.chunk_to_pix(2), Some((2, 0)));
    assert_eq!(t.chunk_to_pix(3), Some((0, 1)));
    assert_eq!(t.chunk_to_pix(5), Some((2, 1)));
    assert_eq!(t.chunk_to_pix(6), None);
    assert_eq!(t.chunk_to_pix(-1), None);
    assert_eq!(RenderTarget::new(0, 4).unwrap().chunk_to_pix(0), None);
}

#[test]
fn target_pixel_numbering_round_trips() {
    let t = RenderTarget::new(7, 5).unwrap();
    for i in 0..35 {
        let (x, y) = t.chunk_to_pix(i).unwrap();
        assert_eq!(t.pix_to_chunk(x, y), i);
    }
}

#[test]
fn target_publish_copies_colours_and_sets_alpha() {
    let mut t = RenderTarget::new(2, 1).unwrap();
    assert!(t.publish(&vec![1, 2, 3, 4, 5, 6], 3));
    assert_eq!(t.buff, vec![1, 2, 3, 255, 4, 5, 6, 255]);
    assert!(t.publish(&vec![9, 8, 7, 0, 6, 5, 4, 17], 4));
    assert_eq!(t.buff, vec![9, 8, 7, 255, 6, 5, 4, 255]);
    assert_eq!(t.snapshot(), t.buff);
}

#[test]
fn target_publish_refuses_the_wrong_shape() {
    let mut t = RenderTarget::new(2, 1).unwrap();
    assert!(t.publish(&vec![1, 2, 3, 4, 5, 6], 3));
    let before = t.buff.clone();
    assert!(!t.publish(&vec![1, 2, 3, 4, 5], 3));
    assert!(!t.publish(&vec![1, 2, 3, 4, 5, 6], 4));
    assert!(!t.publish(&vec![1, 2], 1));
    assert!(!t.publish(&vec![0; 10], 5));
    assert_eq!(t.buff, before);
}

#[test]
fn target_clear_blackens() {
    let mut t = RenderTarget::new(1, 2).unwrap();
    assert!(t.publish(&vec![9; 6], 3));
    t.clear();
    assert_eq!(t.buff, vec![0u8; 8]);
}

#[test]
fn white_sky_publishes_opaque_white() {
    // every ray of an empty scene under a white sky box carries radiance one,
    // which tone-maps to 255 in every channel
    let tone = |c: f32| (c.clamp(0.0, 1.0).powf(0.9) * 255.0 + 0.5).trunc() as u8;
    let mut t = RenderTarget::new(4, 4).unwrap();
    let colours: Vec<u8> = (0..4 * 4 * 3).map(|_| tone(1.0)).collect();
    assert!(t.publish(&colours, 3));
    assert!(t.buff.iter().all(|b| *b == 255));
}
