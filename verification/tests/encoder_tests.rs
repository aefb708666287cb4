use gbam_tools::encoder::CoordinateEncoder;

#[test]
fn test_coordinate_delta_encoding() {
    let mut encoder = CoordinateEncoder::new();

    let coords = vec![
        (1000u32, 2000u32, 1101u16),
        (1001, 2000, 1101),
        (1002, 2001, 1101),
        (1000, 2010, 1102),
    ];

    let mut deltas = Vec::new();
    for (x, y, tile) in coords.iter() {
        deltas.push(encoder.encode_coordinates(*x, *y, *tile));
    }

    // Verify first delta is absolute values
    assert_eq!(deltas[0].x_delta, 1000);
    assert_eq!(deltas[0].y_delta, 2000);
    assert_eq!(deltas[0].tile_delta, 1101);

    // Verify subsequent deltas are differences
    assert_eq!(deltas[1].x_delta, 1); // 1001 - 1000
    assert_eq!(deltas[1].y_delta, 0); // 2000 - 2000
    assert_eq!(deltas[1].tile_delta, 0); // 1101 - 1101

    // Reset and decode
    encoder.reset();
    for (i, delta) in deltas.iter().enumerate() {
        let (x, y, tile) = encoder.decode_coordinates(delta);
        assert_eq!((x, y, tile), coords[i]);
    }
}

#[test]
fn test_coordinate_overflow_protection() {
    let mut encoder = CoordinateEncoder::new();

    // Test with values that would overflow i16
    let large_coord = u32::MAX;
    let deltas = encoder.encode_coordinates(large_coord, large_coord, u16::MAX);

    // Should be clamped to i16::MAX
    assert_eq!(deltas.x_delta, i16::MAX);
    assert_eq!(deltas.y_delta, i16::MAX);
    assert_eq!(deltas.tile_delta, i16::MAX);
}

#[test]
fn test_coordinate_state_and_reset() {
    let mut encoder = CoordinateEncoder::new();
    assert_eq!(encoder.get_state(), (0, 0, 0));
    encoder.encode_coordinates(7, 8, 9);
    assert_eq!(encoder.get_state(), (7, 8, 9));
    encoder.reset();
    assert_eq!(encoder.get_state(), (0, 0, 0));
}

#[test]
fn test_negative_decode_clamps_to_zero() {
    let mut enc = CoordinateEncoder::new();
    let d = gbam_tools::encoder::CoordinateDeltas { x_delta: -5, y_delta: -1, tile_delta: -3 };
    let (x, y, t) = enc.decode_coordinates(&d);
    assert_eq!((x, y, t), (0, 0, 0));
}

#[test]
fn test_tile_decode_truncates() {
    let mut enc = CoordinateEncoder::new();
    let step = gbam_tools::encoder::CoordinateDeltas { x_delta: 0, y_delta: 0, tile_delta: i16::MAX };
    enc.decode_coordinates(&step); // tile 32767
    enc.decode_coordinates(&step); // tile 65534
    let bump = gbam_tools::encoder::CoordinateDeltas { x_delta: 0, y_delta: 0, tile_delta: 3 };
    let (_, _, tile) = enc.decode_coordinates(&bump);
    // 65537 keeps only its low sixteen bits
    assert_eq!(tile, 1);
}
