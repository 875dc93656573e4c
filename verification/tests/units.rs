use bitorrentclient::{format_bytes, hex_encode, DiscoverConfig};

fn reference(bytes: u64) -> String {
    const KIB: u64 = 1024;
    const MIB: u64 = KIB * 1024;
    const GIB: u64 = MIB * 1024;
    if bytes >= GIB {
        format!("{:.2} GiB", bytes as f64 / GIB as f64)
    } else if bytes >= MIB {
        format!("{:.2} MiB", bytes as f64 / MIB as f64)
    } else if bytes >= KIB {
        format!("{:.2} KiB", bytes as f64 / KIB as f64)
    } else {
        format!("{bytes} B")
    }
}

#[test]
fn format_bytes_exact_values() {
    assert_eq!(format_bytes(0), "0 B");
    assert_eq!(format_bytes(1023), "1023 B");
    assert_eq!(format_bytes(1024), "1.00 KiB");
    assert_eq!(format_bytes(1536), "1.50 KiB");
    assert_eq!(format_bytes(1048576), "1.00 MiB");
    assert_eq!(format_bytes(1073741824), "1.00 GiB");
    assert_eq!(format_bytes(u64::MAX), "17179869184.00 GiB");
}

#[test]
fn format_bytes_matches_float_formatting() {
    let mut samples: Vec<u64> = vec![
        1029, 1034, 1039, 1044, 2047, 2048, 5, 1000, 1_000_000, 1_500_000, 999_999_999,
        1_234_567_890, 10_737_418_240, u64::MAX - 1, u64::MAX / 3, 1 << 53, (1 << 53) + 1,
        (1 << 54) + 3, 9_007_199_254_740_993, 18_014_398_509_481_987,
    ];
    // exact ties of the third decimal: k/2^10 with k*100 mod 1024 == 512
    for k in 1024u64..4096 {
        samples.push(k);
    }
    let mut x: u64 = 0x9E37_79B9_7F4A_7C15;
    for _ in 0..20000 {
        x ^= x << 13;
        x ^= x >> 7;
        x ^= x << 17;
        samples.push(x >> (x % 64));
    }
    for n in samples {
        assert_eq!(format_bytes(n), reference(n), "for {n}");
    }
}

#[test]
fn hex_encode_lowercase() {
    assert_eq!(hex_encode(&[0x00, 0xAB, 0x0f, 0xff]), "00ab0fff");
    assert_eq!(hex_encode(&[]), "");
}

#[test]
fn discover_config_default() {
    let config = DiscoverConfig::default();
    assert!(config.use_tracker);
    assert!(config.use_dht);
    assert_eq!(config.port, 6881);
}
