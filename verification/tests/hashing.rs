use imagesorter::hashing::are_duplicates;
use imagesorter::hashing::compare_hashes;
use imagesorter::hashing::compute_exact_hash;
use imagesorter::hashing::compute_perceptual_hash;
use imagesorter::hashing::needs_downscale;
use imagesorter::hashing::ComparableHash;
use imagesorter::hashing::HashType;
use imagesorter::hashing::PerceptualMetric;
use imagesorter::hashing::PixelBuffer;
use std::time::Instant;

fn create_gradient_image(
    width: u32,
    height: u32,
    start_color: [u8; 4],
    _end_color: [u8; 4],
) -> PixelBuffer {
    let mut rgba = Vec::new();
    for y in 0..height {
        for x in 0..width {
            let t = (x as f32 / width as f32 + y as f32 / height as f32) / 2.0;
            rgba.push((start_color[0] as f32 * (1.0 - t) + 100.0 * t) as u8);
            rgba.push((start_color[1] as f32 * (1.0 - t) + 100.0 * t) as u8);
            rgba.push((start_color[2] as f32 * (1.0 - t) + 100.0 * t) as u8);
            rgba.push(255);
        }
    }
    PixelBuffer {
        width,
        height,
        rgba,
    }
}

fn create_solid_image(width: u32, height: u32, color: [u8; 4]) -> PixelBuffer {
    let mut rgba = Vec::new();
    for _ in 0..width * height {
        rgba.extend_from_slice(&color);
    }
    PixelBuffer {
        width,
        height,
        rgba,
    }
}

#[test]
fn test_identical_images_have_zero_distance() {
    let img1 = create_gradient_image(100, 100, [255, 0, 0, 255], [0, 0, 255, 255]);
    let img2 = create_gradient_image(100, 100, [255, 0, 0, 255], [0, 0, 255, 255]);

    let hash1 = compute_perceptual_hash(&img1, HashType::Difference).unwrap();
    let hash2 = compute_perceptual_hash(&img2, HashType::Difference).unwrap();

    let distance = compare_hashes(&hash1, &hash2);
    assert_eq!(distance, 0, "Identiske bilder skal ha distanse 0");
}

#[test]
fn test_different_gradient_images_have_nonzero_distance() {
    let img1 = create_gradient_image(100, 100, [255, 0, 0, 255], [0, 0, 255, 255]);
    let img2 = create_gradient_image(100, 100, [0, 255, 0, 255], [255, 0, 255, 255]);

    let hash1 = compute_perceptual_hash(&img1, HashType::Difference).unwrap();
    let hash2 = compute_perceptual_hash(&img2, HashType::Difference).unwrap();

    let distance = compare_hashes(&hash1, &hash2);
    println!("Forskjellige gradient-bilder distanse: {}", distance);
    assert!(distance >= 0, "Test at hashene beregnes");
}

#[test]
fn test_are_duplicates_with_threshold() {
    let img1 = create_gradient_image(100, 100, [255, 0, 0, 255], [0, 0, 255, 255]);
    let img2 = create_gradient_image(100, 100, [255, 0, 0, 255], [0, 0, 255, 255]);

    let hash1 = compute_perceptual_hash(&img1, HashType::Difference).unwrap();
    let hash2 = compute_perceptual_hash(&img2, HashType::Difference).unwrap();

    assert!(
        are_duplicates(&hash1, &hash2, 0),
        "Identiske bilder med threshold 0"
    );
    assert!(
        are_duplicates(&hash1, &hash2, 5),
        "Identiske bilder med threshold 5"
    );
}

#[test]
fn test_hash_types() {
    let img = create_solid_image(100, 100, [128, 128, 128, 255]);

    assert!(compute_perceptual_hash(&img, HashType::Difference).is_ok());
    assert!(compute_perceptual_hash(&img, HashType::Perceptual).is_ok());
    assert!(compute_perceptual_hash(&img, HashType::Average).is_ok());
    assert!(compute_perceptual_hash(&img, HashType::Exact).is_err());
}

#[test]
fn test_hash_is_deterministic() {
    let img = create_gradient_image(100, 100, [100, 150, 200, 255], [50, 100, 150, 255]);

    let hash1 = compute_perceptual_hash(&img, HashType::Difference).unwrap();
    let hash2 = compute_perceptual_hash(&img, HashType::Difference).unwrap();

    assert_eq!(hash1, hash2, "Hash skal være deterministisk");
}

#[test]
fn test_performance_hashing_10_small_images() {
    let img = create_solid_image(64, 64, [128, 128, 128, 255]);

    let start = Instant::now();
    for _ in 0..10 {
        let _ = compute_perceptual_hash(&img, HashType::Difference).unwrap();
    }
    let duration = start.elapsed();

    println!("10 hashes (64x64) tok: {:?}", duration);
    assert!(duration.as_secs() < 5, "10 hashes skal ta under 5 sekunder");
}

#[test]
fn test_performance_comparison_n_squared() {
    let img = create_solid_image(64, 64, [128, 128, 128, 255]);
    let hash = compute_perceptual_hash(&img, HashType::Difference).unwrap();

    let hashes: Vec<_> = (0..100).map(|_| hash.clone()).collect();

    let start = Instant::now();
    let mut comparisons = 0;
    for i in 0..hashes.len() {
        for j in (i + 1)..hashes.len() {
            let _ = compare_hashes(&hashes[i], &hashes[j]);
            comparisons += 1;
        }
    }
    let duration = start.elapsed();

    println!("{} sammenligninger tok: {:?}", comparisons, duration);
    assert_eq!(comparisons, 4950);
    assert!(
        duration.as_millis() < 100,
        "4950 sammenligninger skal ta under 100ms"
    );
}

#[test]
fn test_image_complexity_matters() {
    let red = create_solid_image(100, 100, [255, 0, 0, 255]);
    let blue = create_solid_image(100, 100, [0, 0, 255, 255]);

    let hash_red = compute_perceptual_hash(&red, HashType::Difference).unwrap();
    let hash_blue = compute_perceptual_hash(&blue, HashType::Difference).unwrap();

    let distance = compare_hashes(&hash_red, &hash_blue);
    println!("Ensfargede bilder (rød vs blå) distanse: {}", distance);
}

#[test]
fn test_hash_summarizes_structure_not_pixels() {
    // the gradient hash reflects coarse structure: solid images of
    // different sizes and colors all have the flat gradient, so their
    // hashes coincide even though their pixel data differ completely
    let small_red = create_solid_image(64, 64, [255, 0, 0, 255]);
    let large_blue = create_solid_image(100, 100, [0, 0, 255, 255]);
    let h1 = compute_perceptual_hash(&small_red, HashType::Difference).unwrap();
    let h2 = compute_perceptual_hash(&large_blue, HashType::Difference).unwrap();
    assert_eq!(compare_hashes(&h1, &h2), 0);
}

#[test]
fn test_compute_exact_hash_known_digests() {
    let empty: Vec<u8> = Vec::new();
    assert_eq!(
        compute_exact_hash(&empty),
        "e3b0c44298fc1c149afbf4c8996fb92427ae41e4649b934ca495991b7852b855"
    );
    let abc: Vec<u8> = vec![b'a', b'b', b'c'];
    assert_eq!(
        compute_exact_hash(&abc),
        "ba7816bf8f01cfea414140de5dae2223b00361a396177a9cb410ff61f20015ad"
    );
}

#[test]
fn test_compare_hashes_counts_differing_bits() {
    assert_eq!(compare_hashes(&vec![0x00u8], &vec![0xFFu8]), 8);
    assert_eq!(compare_hashes(&vec![0b1010u8], &vec![0b0000u8]), 2);
    assert_eq!(compare_hashes(&vec![1u8, 2, 3], &vec![1u8, 2, 3]), 0);
}

#[test]
fn test_compare_hashes_unequal_lengths() {
    // a byte present on only one side counts as eight differing bits
    assert_eq!(compare_hashes(&vec![0xFFu8], &Vec::new()), 8);
    assert_eq!(compare_hashes(&vec![0u8, 0u8], &vec![0u8]), 8);
    assert!(!are_duplicates(&vec![0u8, 0u8], &vec![0u8], 7));
    assert!(are_duplicates(&vec![0u8, 0u8], &vec![0u8], 8));
}

#[test]
fn test_perceptual_metric_threshold_distance() {
    let metric = PerceptualMetric;
    let a = ComparableHash(vec![0b0011u8]);
    let b = ComparableHash(vec![0b0000u8]);
    assert_eq!(metric.distance(&a, &b), 2);
    assert_eq!(metric.threshold_distance(&a, &b, 2), Some(2));
    assert_eq!(metric.threshold_distance(&a, &b, 1), None);
}

#[test]
fn test_needs_downscale_bound() {
    assert!(!needs_downscale(512, 512));
    assert!(needs_downscale(513, 100));
    assert!(needs_downscale(100, 513));
    assert!(!needs_downscale(1, 1));
}
