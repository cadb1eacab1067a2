use iced_waveform::error::Error;
use iced_waveform::lod::{LodPyramid, MinMax};

fn bits(data: &[f32]) -> Vec<u32> {
    data.iter().map(|v| v.to_bits()).collect()
}

fn lo(m: &MinMax) -> f32 {
    f32::from_bits(m.min)
}

fn hi(m: &MinMax) -> f32 {
    f32::from_bits(m.max)
}

#[test]
fn build_small_pyramid() -> Result<(), Error> {
    // 4 samples: [0, 1, -1, 2]
    let data = bits(&[0.0, 1.0, -1.0, 2.0]);
    let pyr = LodPyramid::from_samples(&data)?;

    assert_eq!(pyr.len(), 4);
    assert_eq!(pyr.level_count(), 3); // level0=4, level1=2, level2=1

    let levels = pyr.levels();
    // Level 0: raw
    assert_eq!(levels[0].len(), 4);
    assert!((lo(&levels[0][0]) - 0.0).abs() < 1e-6);
    assert!((hi(&levels[0][0]) - 0.0).abs() < 1e-6);

    // Level 1: merged pairs: (0,1)=[0,1], (-1,2)=[-1,2]
    assert_eq!(levels[1].len(), 2);
    assert!((lo(&levels[1][0]) - 0.0).abs() < 1e-6);
    assert!((hi(&levels[1][0]) - 1.0).abs() < 1e-6);
    assert!((lo(&levels[1][1]) - (-1.0)).abs() < 1e-6);
    assert!((hi(&levels[1][1]) - 2.0).abs() < 1e-6);

    // Level 2: global min/max
    assert_eq!(levels[2].len(), 1);
    assert!((lo(&levels[2][0]) - (-1.0)).abs() < 1e-6);
    assert!((hi(&levels[2][0]) - 2.0).abs() < 1e-6);
    Ok(())
}

#[test]
fn query_coarse_level() -> Result<(), Error> {
    // 8 samples
    let data: Vec<f32> = (0..8).map(|i| i as f32).collect();
    let pyr = LodPyramid::from_samples(&bits(&data))?;

    // Query with target_count=2 → each bucket covers 4 samples → level 2
    let result = pyr.query(0, 8, 2);
    assert_eq!(result.len(), 2);
    // Level 2 (4x per entry): entries cover [0..4] and [4..8]
    assert!((lo(&result[0]) - 0.0).abs() < 1e-6);
    assert!((hi(&result[0]) - 3.0).abs() < 1e-6);
    assert!((lo(&result[1]) - 4.0).abs() < 1e-6);
    assert!((hi(&result[1]) - 7.0).abs() < 1e-6);
    Ok(())
}

#[test]
fn query_subrange() -> Result<(), Error> {
    let data: Vec<f32> = vec![0.0, 5.0, 2.0, 8.0, 1.0, 9.0, 3.0, 7.0];
    let pyr = LodPyramid::from_samples(&bits(&data))?;

    // Query only samples [2, 6): [2.0, 8.0, 1.0, 9.0]
    // target_count=2 → 4 samples / 2 = 2 per bucket → level 1
    let result = pyr.query(2, 6, 2);
    assert_eq!(result.len(), 2);
    // Level 1 entries: merge(2,8) → [2,8], merge(1,9) → [1,9]
    assert!((lo(&result[0]) - 2.0).abs() < 1e-6);
    assert!((hi(&result[0]) - 8.0).abs() < 1e-6);
    assert!((lo(&result[1]) - 1.0).abs() < 1e-6);
    assert!((hi(&result[1]) - 9.0).abs() < 1e-6);
    Ok(())
}

#[test]
fn empty_data_is_refused() {
    let data: Vec<u32> = Vec::new();
    assert!(matches!(LodPyramid::from_samples(&data), Err(Error::EmptyData)));
}

#[test]
fn single_sample_has_one_level() -> Result<(), Error> {
    let pyr = LodPyramid::from_samples(&bits(&[3.5]))?;
    assert_eq!(pyr.len(), 1);
    assert_eq!(pyr.level_count(), 1);
    let r = pyr.query(0, 1, 10);
    assert_eq!(r.len(), 1);
    assert_eq!(lo(&r[0]), 3.5);
    assert_eq!(hi(&r[0]), 3.5);
    Ok(())
}

#[test]
fn odd_length_carries_last_entry_up() -> Result<(), Error> {
    // 5 samples: levels of 5, 3, 2, 1 entries.
    let pyr = LodPyramid::from_samples(&bits(&[4.0, -2.0, 7.0, 1.0, -9.0]))?;
    assert_eq!(pyr.level_count(), 4);
    let levels = pyr.levels();
    let lens: Vec<usize> = levels.iter().map(|l| l.len()).collect();
    assert_eq!(lens, vec![5, 3, 2, 1]);
    // The odd last sample is carried up unchanged.
    assert_eq!(lo(&levels[1][2]), -9.0);
    assert_eq!(hi(&levels[1][2]), -9.0);
    assert_eq!(lo(&levels[2][1]), -9.0);
    // Level 2 entry 0 spans samples [0, 4).
    assert_eq!(lo(&levels[2][0]), -2.0);
    assert_eq!(hi(&levels[2][0]), 7.0);
    // The top entry spans all samples.
    assert_eq!(lo(&levels[3][0]), -9.0);
    assert_eq!(hi(&levels[3][0]), 7.0);
    Ok(())
}

#[test]
fn single_sample_query_returns_that_sample() -> Result<(), Error> {
    let data = [0.5, -1.5, 2.5, 8.0, -3.0, 6.0, 0.25];
    let pyr = LodPyramid::from_samples(&bits(&data))?;
    for (i, v) in data.iter().enumerate() {
        let r = pyr.query(i, i + 1, 1);
        assert_eq!(r.len(), 1);
        assert_eq!(lo(&r[0]), *v);
        assert_eq!(hi(&r[0]), *v);
    }
    Ok(())
}

#[test]
fn query_range_is_clamped_to_data() -> Result<(), Error> {
    let data: Vec<f32> = (0..8).map(|i| i as f32).collect();
    let pyr = LodPyramid::from_samples(&bits(&data))?;
    // start past the end reads the last sample
    let r = pyr.query(100, 200, 4);
    assert_eq!(r.len(), 1);
    assert_eq!(lo(&r[0]), 7.0);
    // end before start reads the one sample at start
    let r = pyr.query(3, 1, 4);
    assert_eq!(r.len(), 1);
    assert_eq!(lo(&r[0]), 3.0);
    // zero buckets read level 0
    let r = pyr.query(2, 5, 0);
    assert_eq!(r.len(), 3);
    assert_eq!(lo(&r[0]), 2.0);
    assert_eq!(lo(&r[2]), 4.0);
    Ok(())
}

#[test]
fn one_bucket_query_keeps_two_entries() -> Result<(), Error> {
    let data: Vec<f32> = (0..5).map(|i| i as f32).collect();
    let pyr = LodPyramid::from_samples(&bits(&data))?;
    // 5 samples in 1 bucket: level 2 (log2(5) = 2), whose 2 entries under the
    // range are target + 1, so both are returned.
    let r = pyr.query(0, 5, 1);
    assert_eq!(r.len(), 2);
    assert_eq!(lo(&r[0]), 0.0);
    assert_eq!(hi(&r[0]), 3.0);
    assert_eq!(lo(&r[1]), 4.0);
    assert_eq!(hi(&r[1]), 4.0);
    // 4 samples, range [1, 3) in 1 bucket: level 1, entries 0 and 1.
    let pyr = LodPyramid::from_samples(&bits(&[0.0, 1.0, -1.0, 2.0]))?;
    let r = pyr.query(1, 3, 1);
    assert_eq!(r.len(), 2);
    assert_eq!((lo(&r[0]), hi(&r[0])), (0.0, 1.0));
    assert_eq!((lo(&r[1]), hi(&r[1])), (-1.0, 2.0));
    Ok(())
}

#[test]
fn query_returns_target_entries() -> Result<(), Error> {
    let data: Vec<f32> = (0..12).map(|i| i as f32).collect();
    let pyr = LodPyramid::from_samples(&bits(&data))?;
    // 12 samples in 4 buckets: level 1 has 6 entries under the range, more than
    // 4 + 1, so they are dealt into 4 buckets.
    let r = pyr.query(0, 12, 4);
    assert_eq!(r.len(), 4);
    for target in 0usize..20 {
        for start in 0..12 {
            for end in start..14 {
                let cs = start.min(11);
                let ce = end.min(12).max(cs + 1);
                let range = ce - cs;
                let per_bucket: usize = if target == 0 { 0 } else { range / target };
                let log2 = if per_bucket >= 1 {
                    (usize::BITS - 1 - per_bucket.leading_zeros()) as usize
                } else {
                    0
                };
                let level = log2.min(pyr.level_count() - 1);
                let last = (((ce - 1) >> level) + 1).min(pyr.levels()[level].len());
                let width = last - (cs >> level);
                let n = pyr.query(start, end, target).len();
                let expected = if target == 0 || width <= target + 1 { width } else { target };
                assert_eq!(n, expected);
                if target == 0 || target >= range {
                    assert_eq!(n, range);
                } else {
                    assert!(n == target || n == target + 1);
                }
            }
        }
    }
    Ok(())
}

#[test]
fn query_bucket_counts_match_request() -> Result<(), Error> {
    let data: Vec<f32> = (0..8).map(|i| i as f32).collect();
    let pyr = LodPyramid::from_samples(&bits(&data))?;
    let r = pyr.query(0, 8, 5);
    assert_eq!(r.len(), 5);
    // Level 0 entries dealt 2, 2, 2, 1, 1 into the buckets.
    let spans: Vec<(f32, f32)> = r.iter().map(|e| (lo(e), hi(e))).collect();
    assert_eq!(spans, vec![(0.0, 1.0), (2.0, 3.0), (4.0, 5.0), (6.0, 6.0), (7.0, 7.0)]);
    let data: Vec<f32> = (0..100).map(|i| i as f32).collect();
    let pyr = LodPyramid::from_samples(&bits(&data))?;
    let r = pyr.query(0, 100, 10);
    assert_eq!(r.len(), 10);
    assert_eq!(lo(&r[0]), 0.0);
    assert_eq!(hi(&r[9]), 99.0);
    Ok(())
}

#[test]
fn nan_samples_are_ignored_by_spans() -> Result<(), Error> {
    let data = [f32::NAN, 2.0, -1.0, f32::NAN];
    let pyr = LodPyramid::from_samples(&bits(&data))?;
    let top = &pyr.levels()[2][0];
    assert_eq!(lo(top), -1.0);
    assert_eq!(hi(top), 2.0);
    let all_nan = LodPyramid::from_samples(&bits(&[f32::NAN, f32::NAN]))?;
    let top = &all_nan.levels()[1][0];
    assert!(lo(top).is_nan() && hi(top).is_nan());
    Ok(())
}

#[test]
fn negative_values_order_correctly() -> Result<(), Error> {
    let data = [-0.5, -100.0, 3.0e9, -3.0e9, f32::INFINITY, f32::NEG_INFINITY, 0.0, -0.0];
    let pyr = LodPyramid::from_samples(&bits(&data))?;
    let top = &pyr.levels()[3][0];
    assert_eq!(lo(top), f32::NEG_INFINITY);
    assert_eq!(hi(top), f32::INFINITY);
    let r = pyr.query(0, 4, 2);
    assert_eq!(lo(&r[0]), -100.0);
    assert_eq!(hi(&r[0]), -0.5);
    assert_eq!(lo(&r[1]), -3.0e9);
    assert_eq!(hi(&r[1]), 3.0e9);
    Ok(())
}

#[test]
fn unaligned_query_keeps_entries() -> Result<(), Error> {
    let data: Vec<f32> = (0..16).map(|i| (i * i) as f32).collect();
    let pyr = LodPyramid::from_samples(&bits(&data))?;
    // 8 samples in 2 buckets: level 2, entries of 4 samples.
    let aligned = pyr.query(4, 12, 2);
    assert_eq!(aligned.len(), 2);
    assert_eq!(lo(&aligned[0]), 16.0);
    assert_eq!(hi(&aligned[1]), 121.0);
    // Starting off an entry boundary touches 3 entries (target + 1): all are
    // returned.
    let shifted = pyr.query(1, 9, 2);
    assert_eq!(shifted.len(), 3);
    assert_eq!((lo(&shifted[0]), hi(&shifted[0])), (0.0, 9.0));
    assert_eq!((lo(&shifted[1]), hi(&shifted[1])), (16.0, 49.0));
    assert_eq!((lo(&shifted[2]), hi(&shifted[2])), (64.0, 121.0));
    Ok(())
}

#[test]
fn query_entries_bound_their_samples() -> Result<(), Error> {
    let mut seed: u32 = 7;
    let data: Vec<f32> = (0..37)
        .map(|_| {
            seed = seed.wrapping_mul(1664525).wrapping_add(1013904223);
            (seed >> 8) as f32 / 65536.0 - 128.0
        })
        .collect();
    let pyr = LodPyramid::from_samples(&bits(&data))?;
    for target in 1..9 {
        for start in 0..37 {
            for end in start + 1..38 {
                let r = pyr.query(start, end, target);
                assert!(r.len() >= 1);
                let cs = start.min(36);
                let ce = end.min(37).max(cs + 1);
                // Buckets come in sample order: each sample lies within a bucket
                // at or after the one holding the sample before it.
                let mut k = 0;
                for j in cs..ce {
                    while !(lo(&r[k]) <= data[j] && data[j] <= hi(&r[k])) {
                        k += 1;
                        assert!(k < r.len());
                    }
                }
            }
        }
    }
    Ok(())
}
