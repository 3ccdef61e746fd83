use nfsview::format::{fmt_count, fmt_ns, fmt_one_decimal};
use nfsview::binary64::Binary64;
use nfsview::hist::{bucket_lower_ns, bucket_sparkline, bucket_upper_ns};

#[test]
fn fmt_ns_human_units() {
    assert_eq!(fmt_ns(0), "-");
    assert_eq!(fmt_ns(500), "500ns");
    assert_eq!(fmt_ns(1_500), "1.5us");
    assert_eq!(fmt_ns(1_500_000), "1.5ms");
    assert_eq!(fmt_ns(2_500_000_000), "2.5s");
}

#[test]
fn fmt_count_thousands_and_millions() {
    assert_eq!(fmt_count(42), "42");
    assert_eq!(fmt_count(12_345), "12.3K");
    assert_eq!(fmt_count(1_500_000), "1.5M");
}

#[test]
fn sparkline_tracks_distribution_shape() {
    // Single hot bucket: lo == hi, exactly one wide character.
    let mut single = vec![0u64; 64];
    single[10] = 1000;
    let (s, lo, hi) = bucket_sparkline(&single);
    assert_eq!((lo, hi), (10, 10));
    assert_eq!(s.chars().count(), 1);

    // Bimodal: two peaks at buckets 8 and 16, valley between.
    let mut bimodal = vec![0u64; 64];
    bimodal[8] = 500;
    bimodal[16] = 500;
    let (s, lo, hi) = bucket_sparkline(&bimodal);
    assert_eq!((lo, hi), (8, 16));
    let chars: Vec<char> = s.chars().collect();
    assert_eq!(chars.len(), 9);
    assert_ne!(chars[0], ' ');
    assert_eq!(chars[1], ' '); // valley
    assert_ne!(chars[8], ' ');

    // Long tail: heavy at bucket 10, single sample at bucket 20.
    let mut tail = vec![0u64; 64];
    tail[10] = 10_000;
    tail[20] = 1;
    let (s, lo, hi) = bucket_sparkline(&tail);
    assert_eq!((lo, hi), (10, 20));
    let chars: Vec<char> = s.chars().collect();
    // Tall start, mostly empty middle, short tip at the end.
    assert_eq!(chars.len(), 11);
    assert_ne!(chars[0], ' ');
    assert_ne!(chars[10], ' ');
}

#[test]
fn empty_buckets_dont_panic() {
    let empty = vec![0u64; 64];
    let (s, lo, hi) = bucket_sparkline(&empty);
    assert_eq!((lo, hi), (0, 0));
    assert_eq!(s, " ");
}

/// The bars by floating-point logarithms.
fn bars_by_logarithm(buckets: &[u64]) -> String {
    let glyphs: Vec<char> = " ▁▂▃▄▅▆▇".chars().collect();
    let max = buckets.iter().copied().max().unwrap();
    let full = ((max + 1) as f64).log2();
    buckets
        .iter()
        .map(|&c| {
            if c == 0 {
                return ' ';
            }
            let h = (((c + 1) as f64).log2() / full * 7.0).round() as usize;
            glyphs[h.min(7).max(1)]
        })
        .collect()
}

#[test]
fn bars_are_rounded_logarithms() {
    for max in [1u64, 2, 3, 10, 100, 999, 1000, 12_345, 1_000_003] {
        for c in [1u64, 2, 3, 4, 5, 7, 9, 16, 33, 50, 77, 99, 500, 999, 5000, 12_000, 500_000] {
            if c <= max {
                let buckets = [c, max];
                let (s, _, _) = bucket_sparkline(&buckets);
                assert_eq!(s, bars_by_logarithm(&buckets), "{c} of {max}");
            }
        }
    }
    // log2(4) / log2(8) is two thirds: 4.67 sevenths of the full height.
    assert_eq!(bucket_sparkline(&[3, 7]).0, "▅▇");
    // log2(2) / log2(4) is one half: 3.5 sevenths, rounded up.
    assert_eq!(bucket_sparkline(&[1, 3]).0, "▄▇");
    // log(6^5) / log(6^14) is 2.5 sevenths exactly, rounded up, whatever a machine's logarithms
    // make of it.
    assert_eq!(bucket_sparkline(&[7_775, 78_364_164_095]).0, "▃▇");
}

#[test]
fn buckets_adjoin() {
    assert_eq!(bucket_lower_ns(0), 0);
    assert_eq!(bucket_upper_ns(0), 2);
    assert_eq!(bucket_lower_ns(10), 1024);
    assert_eq!(bucket_upper_ns(62), 1 << 63);
    assert_eq!(bucket_lower_ns(63), 1 << 63);
    assert_eq!(bucket_lower_ns(64), 1 << 63);
    assert_eq!(bucket_upper_ns(63), u64::MAX);
    for i in 0..63 {
        assert_eq!(bucket_upper_ns(i), bucket_lower_ns(i + 1));
    }
}

#[test]
fn latencies_and_counts_match_float_formatting() {
    let mut n: u64 = 1;
    for step in 0..4000u64 {
        n = n.wrapping_mul(6364136223846793005).wrapping_add(1442695040888963407);
        let ns = n >> (step % 60);
        let text = if ns == 0 {
            "-".to_string()
        } else if ns >= 1_000_000_000 {
            format!("{:.1}s", (ns as f64) / 1e9)
        } else if ns >= 1_000_000 {
            format!("{:.1}ms", (ns as f64) / 1e6)
        } else if ns >= 1_000 {
            format!("{:.1}us", (ns as f64) / 1e3)
        } else {
            format!("{ns}ns")
        };
        assert_eq!(fmt_ns(ns), text);
        if ns >= 1_000_000_000 {
            assert_eq!(fmt_count(ns), format!("{:.1}G", (ns as f64) / 1e9));
        }
    }
    // Ties go to the even digit, and most decimal ties are none in binary.
    for ns in 1_000..20_000u64 {
        assert_eq!(fmt_ns(ns), format!("{:.1}us", (ns as f64) / 1e3));
    }
    assert_eq!(fmt_ns(1_250), "1.2us");
    assert_eq!(fmt_ns(1_150), "1.1us");
}

#[test]
fn one_decimal_matches_float_formatting() {
    let mut n: u64 = 7;
    for _ in 0..4000 {
        n = n.wrapping_mul(6364136223846793005).wrapping_add(1442695040888963407);
        let x = f64::from_bits(n);
        assert_eq!(fmt_one_decimal(Binary64::from_bits(n)), format!("{x:.1}"));
    }
    for x in [0.0, -0.0, 0.05, 0.25, 0.75, -0.04, 1e300, f64::MAX, f64::MIN_POSITIVE, f64::INFINITY, f64::NEG_INFINITY, f64::NAN, 123456.75, 9.95, 9.96] {
        assert_eq!(fmt_one_decimal(Binary64::from_bits(x.to_bits())), format!("{x:.1}"));
    }
}
