use genetic_nn::bits::{grid_weight_bits, total_order_key, WEIGHT_GRID};

#[test]
fn grid_endpoints_and_centre_encode_exactly() {
    assert_eq!(grid_weight_bits(WEIGHT_GRID), 1.0f32.to_bits());
    assert_eq!(grid_weight_bits(0), (-1.0f32).to_bits());
    assert_eq!(grid_weight_bits(1 << 23), 0);
    assert_eq!(f32::from_bits(grid_weight_bits(1 << 23)), 0.0);
}

#[test]
fn grid_quarter_points_encode_exactly() {
    assert_eq!(grid_weight_bits((1 << 23) + (1 << 22)), 0.5f32.to_bits());
    assert_eq!(grid_weight_bits(1 << 22), (-0.5f32).to_bits());
    assert_eq!(grid_weight_bits((1 << 23) + (1 << 21)), 0.25f32.to_bits());
    assert_eq!(grid_weight_bits((1 << 23) + 1), (1.0f32 / 8388608.0).to_bits());
}

#[test]
fn grid_encoding_matches_float_arithmetic_everywhere_sampled() {
    // every grid point k encodes (k - 2^23) / 2^23, which is exactly
    // representable in 32-bit floats
    let mut k: u32 = 0;
    while k <= WEIGHT_GRID {
        let expected = (k as f64 - 8388608.0) / 8388608.0;
        let got = f32::from_bits(grid_weight_bits(k)) as f64;
        assert_eq!(got, expected, "grid point {}", k);
        k += 37781; // a stride coprime to the grid, covering both signs
    }
    assert_eq!(f32::from_bits(grid_weight_bits(WEIGHT_GRID)), 1.0);
}

#[test]
fn total_order_key_orders_like_the_floats() {
    let values = [
        -1.0f32, -0.75, -0.5, -0.25, -0.1, -1.0e-20, 0.0, 1.0e-20, 0.1, 0.25, 0.5, 0.75, 1.0, 2.5,
        1000.0,
    ];
    for i in 0..values.len() {
        for j in 0..values.len() {
            let ki = total_order_key(values[i].to_bits());
            let kj = total_order_key(values[j].to_bits());
            assert_eq!(values[i] < values[j], ki < kj, "{} vs {}", values[i], values[j]);
            assert_eq!(values[i] == values[j], ki == kj);
        }
    }
}
