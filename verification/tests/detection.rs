use imagesorter::cache::HashCache;
use imagesorter::folder::DuplicateResult;
use imagesorter::folder::find_duplicates;
use imagesorter::hashing::compute_perceptual_hash;
use imagesorter::hashing::HashType;
use imagesorter::hashing::PixelBuffer;
use imagesorter::pipeline::PathInput;
use imagesorter::pipeline::StatInfo;

fn solid_image(width: u32, height: u32, color: [u8; 4]) -> PixelBuffer {
    let mut rgba = Vec::new();
    for _ in 0..width * height {
        rgba.extend_from_slice(&color);
    }
    PixelBuffer {
        width,
        height,
        rgba,
    }
}

fn horizontal_ramp(width: u32, height: u32) -> PixelBuffer {
    let mut rgba = Vec::new();
    for _ in 0..height {
        for x in 0..width {
            let v = (x * 255 / width) as u8;
            rgba.extend_from_slice(&[v, v, v, 255]);
        }
    }
    PixelBuffer {
        width,
        height,
        rgba,
    }
}

fn vertical_ramp(width: u32, height: u32) -> PixelBuffer {
    let mut rgba = Vec::new();
    for y in 0..height {
        let v = (y * 255 / height) as u8;
        for _ in 0..width {
            rgba.extend_from_slice(&[v, v, v, 255]);
        }
    }
    PixelBuffer {
        width,
        height,
        rgba,
    }
}

fn input_for(name: &str, mtime: u64, hash: Option<Vec<u8>>) -> PathInput {
    PathInput {
        path: name.to_string(),
        stat: Some(StatInfo {
            mtime,
            size: 1000,
            filename: name.to_string(),
        }),
        decoded: hash,
    }
}

fn missing_input(name: &str) -> PathInput {
    PathInput {
        path: name.to_string(),
        stat: None,
        decoded: None,
    }
}

fn run(inputs: &Vec<PathInput>, threshold: u32, cache: &mut HashCache) -> DuplicateResult {
    find_duplicates(inputs, threshold, cache)
}

#[test]
fn test_three_identical_images_form_one_group() {
    let img = solid_image(100, 100, [10, 200, 30, 255]);
    let hash = compute_perceptual_hash(&img, HashType::Difference).unwrap();
    let inputs = vec![
        input_for("a.png", 1, Some(hash.clone())),
        input_for("b.png", 1, Some(hash.clone())),
        input_for("c.png", 1, Some(hash.clone())),
    ];
    let mut cache = HashCache::new();
    let result = run(&inputs, 0, &mut cache);
    assert_eq!(result.groups.len(), 1);
    assert_eq!(result.groups[0].images.len(), 3);
    assert_eq!(result.total_duplicates, 2);
    assert_eq!(result.errors, 0);
    assert_eq!(result.processed, 3);
    assert_eq!(result.groups[0].images[0].path, "a.png");
    assert_eq!(result.groups[0].images[1].path, "b.png");
    assert_eq!(result.groups[0].images[2].path, "c.png");
}

#[test]
fn test_different_gradients_form_no_group() {
    let h1 = compute_perceptual_hash(&horizontal_ramp(100, 100), HashType::Difference).unwrap();
    let h2 = compute_perceptual_hash(&vertical_ramp(100, 100), HashType::Difference).unwrap();
    assert_ne!(h1, h2, "helt forskjellig gradientinnhold gir ulik hash");
    let inputs = vec![
        input_for("h.png", 1, Some(h1)),
        input_for("v.png", 1, Some(h2)),
    ];
    let mut cache = HashCache::new();
    let result = run(&inputs, 0, &mut cache);
    assert_eq!(result.groups.len(), 0);
    assert_eq!(result.total_duplicates, 0);
    assert_eq!(result.errors, 0);
    assert_eq!(result.processed, 2);
}

#[test]
fn test_missing_file_is_counted_not_fatal() {
    let img = solid_image(100, 100, [1, 2, 3, 255]);
    let hash = compute_perceptual_hash(&img, HashType::Difference).unwrap();
    let inputs = vec![
        input_for("a.png", 1, Some(hash.clone())),
        missing_input("gone.png"),
        input_for("b.png", 1, Some(hash.clone())),
    ];
    let mut cache = HashCache::new();
    let result = run(&inputs, 0, &mut cache);
    assert_eq!(result.processed, 2);
    assert_eq!(result.errors, 1);
    assert_eq!(result.groups.len(), 1);
    assert_eq!(result.total_duplicates, 1);
}

#[test]
fn test_persisted_cache_makes_second_run_decode_free() {
    let img = solid_image(100, 100, [90, 90, 90, 255]);
    let hash = compute_perceptual_hash(&img, HashType::Difference).unwrap();
    let inputs = vec![
        input_for("a.png", 7, Some(hash.clone())),
        input_for("b.png", 7, Some(hash.clone())),
    ];
    let mut cache = HashCache::new();
    let first = run(&inputs, 0, &mut cache);
    assert_eq!(first.processed, 2);
    assert_eq!(first.total_duplicates, 1);

    // persist the cache between the runs
    let bytes = cache.serialize();
    let mut reloaded = HashCache::parse(&bytes);

    // the second run gets no decoded hashes at all: every path must be
    // served from the reloaded cache
    let second_inputs = vec![input_for("a.png", 7, None), input_for("b.png", 7, None)];
    let second = run(&second_inputs, 0, &mut reloaded);
    assert_eq!(second.processed, 2);
    assert_eq!(second.errors, 0);
    assert_eq!(second.total_duplicates, 1);
    assert_eq!(second.groups.len(), 1);
    assert_eq!(second.groups[0].images[0].path, "a.png");
    assert_eq!(second.groups[0].images[1].path, "b.png");
}

#[test]
fn test_unchanged_inputs_rerun_identically() {
    let img = solid_image(64, 64, [200, 100, 50, 255]);
    let hash = compute_perceptual_hash(&img, HashType::Difference).unwrap();
    let inputs = vec![
        input_for("x.png", 3, Some(hash.clone())),
        input_for("y.png", 3, Some(hash.clone())),
        missing_input("z.png"),
    ];
    let mut cache = HashCache::new();
    let first = run(&inputs, 0, &mut cache);
    let second = run(&inputs, 0, &mut cache);
    assert_eq!(first.processed, second.processed);
    assert_eq!(first.errors, second.errors);
    assert_eq!(first.total_duplicates, second.total_duplicates);
    assert_eq!(first.groups.len(), second.groups.len());
    for (g1, g2) in first.groups.iter().zip(second.groups.iter()) {
        assert_eq!(g1.images.len(), g2.images.len());
        for (i1, i2) in g1.images.iter().zip(g2.images.iter()) {
            assert_eq!(i1.path, i2.path);
        }
    }
}

#[test]
fn test_mtime_change_invalidates_exactly_that_entry() {
    let mut cache = HashCache::new();
    cache.insert("a.png".to_string(), 1, vec![1, 2, 3]);
    cache.insert("b.png".to_string(), 5, vec![4, 5, 6]);

    // matching modification time hits
    assert_eq!(cache.lookup(&"a.png".to_string(), 1), Some(vec![1, 2, 3]));
    // a changed modification time is a miss, not a stale hit
    assert_eq!(cache.lookup(&"a.png".to_string(), 2), None);
    // the unrelated entry is unaffected
    assert_eq!(cache.lookup(&"b.png".to_string(), 5), Some(vec![4, 5, 6]));
}

#[test]
fn test_mtime_change_forces_one_recompute() {
    let old_hash = vec![0x11u8, 0x11, 0x11, 0x11, 0x11, 0x11, 0x11, 0x11];
    let new_hash = vec![0x22u8, 0x22, 0x22, 0x22, 0x22, 0x22, 0x22, 0x22];
    let q_hash = vec![0x33u8, 0x33, 0x33, 0x33, 0x33, 0x33, 0x33, 0x33];
    let mut cache = HashCache::new();
    let first_inputs = vec![
        input_for("p.png", 1, Some(old_hash.clone())),
        input_for("q.png", 9, Some(q_hash.clone())),
    ];
    let first = run(&first_inputs, 0, &mut cache);
    assert_eq!(first.processed, 2);

    // p's modification time changed; q is unchanged and gets no decoded
    // hash, so it must be served from the cache
    let second_inputs = vec![
        input_for("p.png", 2, Some(new_hash.clone())),
        input_for("q.png", 9, None),
    ];
    let second = run(&second_inputs, 0, &mut cache);
    assert_eq!(second.processed, 2);
    assert_eq!(second.errors, 0);

    // p was rehashed and stored under its new modification time; q's
    // entry is untouched
    assert_eq!(cache.lookup(&"p.png".to_string(), 1), None);
    assert_eq!(cache.lookup(&"p.png".to_string(), 2), Some(new_hash));
    assert_eq!(cache.lookup(&"q.png".to_string(), 9), Some(q_hash));
}

#[test]
fn test_insert_overwrites_prior_entry() {
    let mut cache = HashCache::new();
    cache.insert("a.png".to_string(), 1, vec![1]);
    cache.insert("a.png".to_string(), 2, vec![2]);
    assert_eq!(cache.len(), 1);
    assert_eq!(cache.lookup(&"a.png".to_string(), 1), None);
    assert_eq!(cache.lookup(&"a.png".to_string(), 2), Some(vec![2]));
}

#[test]
fn test_cache_roundtrip_keeps_entries() {
    let mut cache = HashCache::new();
    cache.insert("bilder/fjord_æøå.png".to_string(), 11, vec![7, 8]);
    cache.insert("bilder/by.png".to_string(), 22, vec![9]);
    let bytes = cache.serialize();
    let reloaded = HashCache::parse(&bytes);
    assert_eq!(reloaded.len(), 2);
    assert_eq!(
        reloaded.lookup(&"bilder/fjord_æøå.png".to_string(), 11),
        Some(vec![7, 8])
    );
    assert_eq!(
        reloaded.lookup(&"bilder/by.png".to_string(), 22),
        Some(vec![9])
    );
}

#[test]
fn test_corrupt_cache_is_cold_not_fatal() {
    let garbage = vec![1u8, 2, 3, 4, 5];
    let cache = HashCache::parse(&garbage);
    assert_eq!(cache.len(), 0);

    // a truncated but prefix-valid file is treated the same way
    let mut good = HashCache::new();
    good.insert("a.png".to_string(), 1, vec![1, 2, 3, 4]);
    let mut bytes = good.serialize();
    bytes.pop();
    let cache2 = HashCache::parse(&bytes);
    assert_eq!(cache2.len(), 0);

    // an empty file is an empty cache
    let cache3 = HashCache::parse(&Vec::new());
    assert_eq!(cache3.len(), 0);
}

#[test]
fn test_seed_order_single_linkage_grouping() {
    // hashes one bit apart chain together under the first seed: B and C
    // both lie within 1 of seed A, so the group is seeded by A even though
    // B and C differ by 2 from each other
    let a = vec![0b0000u8];
    let b = vec![0b0001u8];
    let c = vec![0b0010u8];
    let inputs = vec![
        input_for("a.png", 1, Some(a)),
        input_for("b.png", 1, Some(b)),
        input_for("c.png", 1, Some(c)),
    ];
    let mut cache = HashCache::new();
    let result = run(&inputs, 1, &mut cache);
    assert_eq!(result.groups.len(), 1);
    assert_eq!(result.groups[0].images.len(), 3);
    assert_eq!(result.total_duplicates, 2);
}

#[test]
fn test_groups_are_disjoint_with_at_least_two_members() {
    let inputs = vec![
        input_for("a.png", 1, Some(vec![0x00u8])),
        input_for("b.png", 1, Some(vec![0x00u8])),
        input_for("c.png", 1, Some(vec![0xFFu8])),
        input_for("d.png", 1, Some(vec![0xFFu8])),
        input_for("e.png", 1, Some(vec![0xFFu8])),
        input_for("lone.png", 1, Some(vec![0x0Fu8])),
    ];
    let mut cache = HashCache::new();
    let result = run(&inputs, 0, &mut cache);
    assert_eq!(result.groups.len(), 2);
    let mut seen = Vec::new();
    for group in &result.groups {
        assert!(group.images.len() >= 2);
        for img in &group.images {
            assert!(!seen.contains(&img.path), "no record sits in two groups");
            seen.push(img.path.clone());
        }
    }
    // the singleton is discarded, not grouped
    assert!(!seen.contains(&"lone.png".to_string()));
    assert_eq!(result.total_duplicates, 3);
    assert_eq!(result.processed, 6);
}

#[test]
fn test_seed_order_decides_absorption() {
    // membership is decided against the seed alone, in input order: at a
    // wider threshold the first record absorbs the would-be seed of a
    // larger group, and the remaining records no longer reach each other
    let inputs = vec![
        input_for("a.png", 1, Some(vec![0x00u8])),
        input_for("b.png", 1, Some(vec![0x70u8])),
        input_for("c.png", 1, Some(vec![0x7Cu8])),
        input_for("d.png", 1, Some(vec![0x73u8])),
    ];
    let mut cache1 = HashCache::new();
    let narrow = run(&inputs, 2, &mut cache1);
    assert_eq!(narrow.groups.len(), 1);
    assert_eq!(narrow.groups[0].images.len(), 3);
    assert_eq!(narrow.total_duplicates, 2);

    let mut cache2 = HashCache::new();
    let wide = run(&inputs, 3, &mut cache2);
    assert_eq!(wide.groups.len(), 1);
    assert_eq!(wide.groups[0].images.len(), 2);
    assert_eq!(wide.total_duplicates, 1);
}

#[test]
fn test_threshold_widening_can_merge_groups() {
    let a = vec![0x00u8];
    let b = vec![0x0Fu8];
    let inputs = vec![
        input_for("a.png", 1, Some(a)),
        input_for("b.png", 1, Some(b)),
    ];
    let mut cache1 = HashCache::new();
    let narrow = run(&inputs, 3, &mut cache1);
    assert_eq!(narrow.total_duplicates, 0);
    let mut cache2 = HashCache::new();
    let wide = run(&inputs, 4, &mut cache2);
    assert_eq!(wide.total_duplicates, 1);
}
