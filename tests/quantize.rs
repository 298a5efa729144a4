use kmeans_color_wasm::{
    check_cluster_input, count_assignments, lightness_key, order_shares, parse_color_space,
    parse_sort, prepare, rgb_to_hex, sample_rgba, stable_order, CentroidSort, ClusterShare, ColorSpace,
    GetKmeansOptions, KmeansConfig, KmeansError, Rgb8,
};
use palette::{IntoColor, Lab, Srgb};

fn share(centroid: usize, count: usize) -> ClusterShare {
    ClusterShare { centroid, count }
}

fn no_options() -> GetKmeansOptions {
    GetKmeansOptions {
        k: None,
        max_iter: None,
        converge: None,
        seed: None,
        color_space: None,
        sort: None,
    }
}

#[test]
fn rgb_to_hex_test() {
    assert_eq!(rgb_to_hex(0x40, 0x80, 0xc0), "#4080c0");
}

#[test]
fn hex_is_lowercase_and_zero_padded() {
    assert_eq!(rgb_to_hex(0, 10, 255), "#000aff");
    assert_eq!(rgb_to_hex(0, 0, 0), "#000000");
    assert_eq!(rgb_to_hex(255, 255, 255), "#ffffff");
    assert_eq!(rgb_to_hex(0xab, 0x01, 0xf0), "#ab01f0");
}

#[test]
fn hex_of_unit_srgb_channels() {
    let (r, g, b) = Srgb::new(0.25f32, 0.5, 0.753).into_format::<u8>().into_components();
    assert_eq!(rgb_to_hex(r, g, b), "#4080c0");
}

#[test]
fn lab_round_trip_stays_close() {
    let colors = [
        (0.0f32, 0.0f32, 0.0f32),
        (1.0, 1.0, 1.0),
        (1.0, 0.0, 0.0),
        (0.0, 1.0, 0.0),
        (0.0, 0.0, 1.0),
        (1.0, 1.0, 0.0),
        (0.0, 1.0, 1.0),
        (1.0, 0.0, 1.0),
        (0.25, 0.5, 0.753),
    ];
    for (r, g, b) in colors {
        let lab: Lab = Srgb::new(r, g, b).into_color();
        let back: Srgb = lab.into_color();
        assert!((back.red - r).abs() <= 1e-3);
        assert!((back.green - g).abs() <= 1e-3);
        assert!((back.blue - b).abs() <= 1e-3);
    }
}

#[test]
fn shares_count_each_centroid_and_drop_empty_ones() {
    let indices: Vec<u8> = vec![0, 2, 2, 1, 2, 0];
    let shares = count_assignments(&indices, 4);
    assert_eq!(shares, vec![share(0, 2), share(1, 1), share(2, 3)]);
}

#[test]
fn percentages_add_up_to_one() {
    let indices: Vec<u8> = vec![3, 1, 1, 4, 1, 3, 0, 1, 4, 4, 4];
    let shares = count_assignments(&indices, 6);
    let total: usize = shares.iter().map(|s| s.count).sum();
    assert_eq!(total, indices.len());
    let sum: f64 = shares.iter().map(|s| s.count as f64 / indices.len() as f64).sum();
    assert!((sum - 1.0).abs() <= 1e-6);
    for s in &shares {
        let p = s.count as f64 / indices.len() as f64;
        assert!((0.0..=1.0).contains(&p));
    }
}

#[test]
fn k_equal_to_samples_gives_unit_shares() {
    let indices: Vec<u8> = vec![2, 0, 3, 1];
    let shares = count_assignments(&indices, 4);
    assert_eq!(shares.len(), 4);
    for (i, s) in shares.iter().enumerate() {
        assert_eq!(s.centroid, i);
        assert_eq!(s.count, 1);
        assert!((s.count as f64 / 4.0 - 0.25).abs() < 1e-12);
    }
}

#[test]
fn no_samples_give_no_shares() {
    let shares = count_assignments(&Vec::new(), 3);
    assert!(shares.is_empty());
}

#[test]
fn order_by_percentage_is_ascending() {
    // Shares of ten samples: 0.1, 0.5 and 0.2.
    let shares = vec![share(0, 1), share(1, 5), share(2, 2)];
    let lightness = vec![0, 0, 0];
    let ordered = order_shares(&shares, &lightness, CentroidSort::Percentage);
    let counts: Vec<usize> = ordered.iter().map(|s| s.count).collect();
    assert_eq!(counts, vec![1, 2, 5]);
}

#[test]
fn order_by_luminosity_is_ascending() {
    let shares = vec![share(0, 4), share(1, 3), share(2, 3)];
    let lightness: Vec<u64> = [80.0f64, 20.0, 50.0].iter().map(|l| lightness_key(l.to_bits())).collect();
    let ordered = order_shares(&shares, &lightness, CentroidSort::Luminosity);
    let centroids: Vec<usize> = ordered.iter().map(|s| s.centroid).collect();
    assert_eq!(centroids, vec![1, 2, 0]);
}

#[test]
fn equal_percentages_keep_input_order() {
    let shares = vec![share(4, 2), share(1, 1), share(0, 2), share(3, 1)];
    let lightness = vec![0, 0, 0, 0, 0];
    let ordered = order_shares(&shares, &lightness, CentroidSort::Percentage);
    assert_eq!(ordered, vec![share(1, 1), share(3, 1), share(4, 2), share(0, 2)]);
}

#[test]
fn stable_order_of_keys() {
    assert_eq!(stable_order(&vec![5, 1, 5, 0, 1]), vec![3, 1, 4, 0, 2]);
    assert_eq!(stable_order(&Vec::new()), Vec::<usize>::new());
}

#[test]
fn lightness_key_follows_double_order() {
    let values = [-3.5f64, -0.0, 0.0, 1e-9, 20.0, 50.0, 80.0, 100.0];
    for w in values.windows(2) {
        assert!(lightness_key(w[0].to_bits()) < lightness_key(w[1].to_bits()));
    }
}

#[test]
fn zero_k_is_invalid() {
    assert_eq!(check_cluster_input(0, 5), Err(KmeansError::InvalidK));
    assert_eq!(check_cluster_input(0, 0), Err(KmeansError::InvalidK));
}

#[test]
fn empty_samples_are_rejected() {
    assert_eq!(check_cluster_input(3, 0), Err(KmeansError::EmptyInput));
}

#[test]
fn k_above_samples_is_invalid() {
    assert_eq!(check_cluster_input(6, 5), Err(KmeansError::InvalidK));
    assert_eq!(check_cluster_input(10001, 10000), Err(KmeansError::InvalidK));
    assert_eq!(check_cluster_input(257, 10000), Ok(()));
    assert_eq!(check_cluster_input(10000, 10000), Ok(()));
    assert_eq!(check_cluster_input(5, 5), Ok(()));
}

#[test]
fn unknown_color_space_is_rejected() {
    assert_eq!(parse_color_space("HSV"), Err(KmeansError::InvalidColorSpace));
    assert_eq!(parse_color_space(""), Err(KmeansError::InvalidColorSpace));
    assert_eq!(parse_color_space("rgb"), Err(KmeansError::InvalidColorSpace));
    assert_eq!(parse_color_space("RGB"), Ok(ColorSpace::RGB));
    assert_eq!(parse_color_space("Lab"), Ok(ColorSpace::LAB));
    assert_eq!(parse_color_space("LAB"), Ok(ColorSpace::LAB));
}

#[test]
fn unknown_sort_key_is_rejected() {
    assert_eq!(parse_sort("brightness"), Err(KmeansError::InvalidSortKey));
    assert_eq!(parse_sort("percentage"), Ok(CentroidSort::Percentage));
    assert_eq!(parse_sort("luminosity"), Ok(CentroidSort::Luminosity));
}

#[test]
fn option_defaults() {
    let o = no_options();
    assert_eq!(o.k(), 8);
    assert_eq!(o.max_iterations(), 20);
    assert_eq!(o.color_space(), ColorSpace::RGB);
    assert_eq!(o.sorting(), CentroidSort::Percentage);
    assert_eq!(f32::from_bits(o.converge()), 0.0025f32);
    assert_eq!(o.seed(77), 77);
}

#[test]
fn lab_default_threshold_and_given_values() {
    let o = GetKmeansOptions {
        k: Some(3),
        max_iter: Some(5),
        converge: None,
        seed: Some(9),
        color_space: Some(ColorSpace::LAB),
        sort: Some(CentroidSort::Luminosity),
    };
    assert_eq!(f32::from_bits(o.converge()), 5.0f32);
    assert_eq!(o.seed(77), 9);
    let given = GetKmeansOptions { converge: Some(0.5f32.to_bits()), ..o };
    assert_eq!(f32::from_bits(given.converge()), 0.5f32);
    assert_eq!(
        o.resolve(10, 1),
        Ok(KmeansConfig {
            k: 3,
            max_iterations: 5,
            converge: 5.0f32.to_bits(),
            seed: 9,
            color_space: ColorSpace::LAB,
            sort: CentroidSort::Luminosity,
        })
    );
}

#[test]
fn resolve_rejects_bad_k() {
    let o = no_options();
    assert_eq!(o.resolve(5, 1), Err(KmeansError::InvalidK));
    assert_eq!(o.resolve(0, 1), Err(KmeansError::EmptyInput));
    let zero = GetKmeansOptions { k: Some(0), ..o };
    assert_eq!(zero.resolve(100, 1), Err(KmeansError::InvalidK));
    assert_eq!(o.resolve(8, 42).map(|c| c.seed), Ok(42));
}

#[test]
fn malformed_buffer_is_unsupported() {
    assert_eq!(sample_rgba(&vec![1, 2, 3], 1, 1), Err(KmeansError::UnsupportedSource));
    assert_eq!(sample_rgba(&vec![0; 8], 1, 1), Err(KmeansError::UnsupportedSource));
    assert_eq!(sample_rgba(&vec![0; 4], usize::MAX, 2), Err(KmeansError::UnsupportedSource));
}

#[test]
fn small_image_keeps_every_pixel_without_alpha() {
    let pixels = vec![1, 2, 3, 255, 4, 5, 6, 0];
    let samples = sample_rgba(&pixels, 2, 1).unwrap();
    assert_eq!(samples, vec![Rgb8 { r: 1, g: 2, b: 3 }, Rgb8 { r: 4, g: 5, b: 6 }]);
    assert_eq!(sample_rgba(&Vec::new(), 0, 0), Ok(Vec::new()));
}

#[test]
fn large_image_is_scaled_to_the_sample_grid() {
    let (w, h) = (200usize, 150usize);
    let mut pixels = Vec::new();
    for y in 0..h {
        for x in 0..w {
            pixels.extend_from_slice(&[x as u8, y as u8, 7, 255]);
        }
    }
    let samples = sample_rgba(&pixels, w, h).unwrap();
    assert_eq!(samples.len(), 10000);
    for gy in 0..100 {
        for gx in 0..100 {
            let s = samples[gy * 100 + gx];
            assert_eq!(s, Rgb8 { r: (gx * 2) as u8, g: (gy * 3 / 2) as u8, b: 7 });
        }
    }
}

#[test]
fn image_at_the_budget_is_not_scaled() {
    let pixels: Vec<u8> = (0..10000u32).flat_map(|i| [(i % 251) as u8, 0, 0, 9]).collect();
    let samples = sample_rgba(&pixels, 50, 200).unwrap();
    assert_eq!(samples.len(), 10000);
    for (i, s) in samples.iter().enumerate() {
        assert_eq!(s.r, (i % 251) as u8);
    }
}

#[test]
fn clustering_with_a_seed_is_reproducible() {
    let samples: Vec<Srgb> = (0..60u32)
        .map(|i| Srgb::new((i % 7) as f32 / 7.0, (i % 5) as f32 / 5.0, (i % 3) as f32 / 3.0))
        .collect();
    let a = kmeans_colors::get_kmeans(4, 20, 0.0025, false, &samples, 11);
    let b = kmeans_colors::get_kmeans(4, 20, 0.0025, false, &samples, 11);
    assert_eq!(a.indices, b.indices);
    assert_eq!(a.centroids, b.centroids);
}

#[test]
fn prepare_checks_buffer_before_options() {
    let o = no_options();
    assert_eq!(prepare(&vec![0; 5], 1, 1, &o, 3), Err(KmeansError::UnsupportedSource));
    assert_eq!(prepare(&vec![0; 16], 2, 2, &o, 3), Err(KmeansError::InvalidK));
    assert_eq!(prepare(&Vec::new(), 0, 0, &o, 3), Err(KmeansError::EmptyInput));
    let two = GetKmeansOptions { k: Some(2), ..o };
    let pixels = vec![9, 8, 7, 255, 1, 2, 3, 255, 9, 8, 7, 0];
    let (samples, config) = prepare(&pixels, 3, 1, &two, 3).unwrap();
    assert_eq!(samples.len(), 3);
    assert_eq!(samples[1], Rgb8 { r: 1, g: 2, b: 3 });
    assert_eq!(config.k, 2);
    assert_eq!(config.seed, 3);
}

#[test]
fn ordered_shares_still_add_up_to_all_samples() {
    let indices: Vec<u8> = vec![1, 1, 0, 3, 3, 3, 1, 0, 3];
    let shares = count_assignments(&indices, 4);
    let lightness = vec![lightness_key(70.0f64.to_bits()), lightness_key(10.0f64.to_bits()), 0, lightness_key(40.0f64.to_bits())];
    for sort in [CentroidSort::Percentage, CentroidSort::Luminosity] {
        let ordered = order_shares(&shares, &lightness, sort);
        assert_eq!(ordered.len(), 3);
        let total: usize = ordered.iter().map(|s| s.count).sum();
        assert_eq!(total, indices.len());
    }
    let by_light: Vec<usize> = order_shares(&shares, &lightness, CentroidSort::Luminosity)
        .iter()
        .map(|s| s.centroid)
        .collect();
    assert_eq!(by_light, vec![1, 3, 0]);
}

#[test]
fn more_than_256_clusters_are_accepted() {
    let pixels = vec![5u8; 4 * 100 * 100];
    let o = GetKmeansOptions { k: Some(257), ..no_options() };
    let (samples, config) = prepare(&pixels, 100, 100, &o, 1).unwrap();
    assert_eq!(samples.len(), 10000);
    assert_eq!(config.k, 257);
    let all = GetKmeansOptions { k: Some(10000), ..no_options() };
    assert_eq!(prepare(&pixels, 100, 100, &all, 1).map(|(_, c)| c.k), Ok(10000));
    let over = GetKmeansOptions { k: Some(10001), ..no_options() };
    assert_eq!(prepare(&pixels, 100, 100, &over, 1), Err(KmeansError::InvalidK));
}
