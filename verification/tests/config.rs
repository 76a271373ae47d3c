use zk_alloc::config::{
    cache_ceiling, num_shards, CACHE_BYTES_ENV, DEFAULT_CEILING_CAP, MAX_SHARDS,
};

#[test]
fn shards_are_cpus_rounded_up_to_a_power_of_two() {
    assert_eq!(num_shards(1), 1);
    assert_eq!(num_shards(2), 2);
    assert_eq!(num_shards(3), 4);
    assert_eq!(num_shards(8), 8);
    assert_eq!(num_shards(12), 16);
    assert_eq!(num_shards(33), 64);
}

#[test]
fn shards_are_capped() {
    assert_eq!(num_shards(64), MAX_SHARDS);
    assert_eq!(num_shards(65), MAX_SHARDS);
    assert_eq!(num_shards(i64::MAX), MAX_SHARDS);
}

#[test]
fn unknown_cpu_count_gets_one_shard() {
    assert_eq!(num_shards(0), 1);
    assert_eq!(num_shards(-1), 1);
    assert_eq!(num_shards(i64::MIN), 1);
}

#[test]
fn override_sets_the_ceiling() {
    assert_eq!(cache_ceiling(Some("12345"), 1 << 20, 4096), 12345);
    assert_eq!(cache_ceiling(Some("0"), 1 << 20, 4096), 0);
    assert_eq!(cache_ceiling(Some("+7"), 1 << 20, 4096), 7);
    assert_eq!(cache_ceiling(Some("007"), 1 << 20, 4096), 7);
    assert_eq!(cache_ceiling(Some("18446744073709551615"), 0, 0), usize::MAX);
}

#[test]
fn override_is_trimmed() {
    assert_eq!(cache_ceiling(Some("  42\n"), 1 << 20, 4096), 42);
    assert_eq!(cache_ceiling(Some("\t\u{a0}42\u{2003}\u{3000}"), 1 << 20, 4096), 42);
}

#[test]
fn bad_override_is_ignored() {
    let default = cache_ceiling(None, 1 << 20, 4096);
    for s in ["", " ", "+", "-1", "1 2", "12k", "0x10", "1_000", "++1", "18446744073709551616"] {
        assert_eq!(cache_ceiling(Some(s), 1 << 20, 4096), default, "{s:?}");
    }
    assert_eq!(cache_ceiling(Some("99999999999999999999x"), 1 << 20, 4096), default);
    assert_eq!(cache_ceiling(Some("\u{661}"), 1 << 20, 4096), default);
}

#[test]
fn white_space_is_what_std_trims() {
    for code in 0..0x11_0000u32 {
        if let Some(c) = char::from_u32(code) {
            let s = format!("{c}5{c}");
            let expected = s.trim().parse::<usize>().ok().unwrap_or(1 << 20);
            // Only characters that may be trimmed or parsed are worth the walk.
            if c.is_whitespace() || c.is_ascii() {
                assert_eq!(cache_ceiling(Some(s.as_str()), 1 << 11, 4096), expected, "{code:x}");
            }
        }
    }
}

#[test]
fn default_is_an_eighth_of_ram() {
    // 1 GiB of RAM in 4 KiB pages.
    assert_eq!(cache_ceiling(None, 1 << 18, 4096), 128 * 1024 * 1024);
    // Whole pages: 15 pages are one eighth of a page short of two.
    assert_eq!(cache_ceiling(None, 15, 4096), 4096);
}

#[test]
fn default_is_capped_at_one_gib() {
    assert_eq!(DEFAULT_CEILING_CAP, 1 << 30);
    assert_eq!(cache_ceiling(None, 1 << 30, 4096), DEFAULT_CEILING_CAP);
    assert_eq!(cache_ceiling(None, i64::MAX, i64::MAX), DEFAULT_CEILING_CAP);
}

#[test]
fn unknown_ram_gets_the_cap() {
    assert_eq!(cache_ceiling(None, -1, 4096), DEFAULT_CEILING_CAP);
    assert_eq!(cache_ceiling(None, 1 << 20, 0), DEFAULT_CEILING_CAP);
    assert_eq!(cache_ceiling(Some("many"), 0, 0), DEFAULT_CEILING_CAP);
}

#[test]
fn override_has_a_name() {
    assert_eq!(CACHE_BYTES_ENV, "ZK_ALLOC_CACHE_BYTES");
}
