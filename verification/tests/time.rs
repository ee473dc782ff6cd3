use ntfs_forensic::time::Filetime;

#[test]
fn zero_is_unset() {
    assert!(Filetime(0).is_zero());
    assert!(!Filetime(1).is_zero());
}

#[test]
fn filetime_epoch_maps_to_unix_zero() {
    // 116444736000000000 ticks = exactly the Unix epoch.
    assert_eq!(Filetime(116_444_736_000_000_000).to_unix_seconds(), 0);
}

#[test]
fn known_date_converts() {
    // 2010-01-01 00:00:00 UTC → unix 1262304000.
    let ft = Filetime(129_067_776_000_000_000);
    assert_eq!(ft.to_unix_seconds(), 1_262_304_000);
}

#[test]
fn pre_unix_epoch_is_negative() {
    // One second before the Unix epoch.
    let ft = Filetime(116_444_736_000_000_000 - 10_000_000);
    assert_eq!(ft.to_unix_seconds(), -1);
}

#[test]
fn nanos_granularity() {
    // One 100-ns tick past the epoch = 100 ns.
    let ft = Filetime(116_444_736_000_000_000 + 1);
    assert_eq!(ft.to_unix_nanos(), 100);
}

#[test]
fn from_le_reads_little_endian() {
    let ft = Filetime::from_le(&1u64.to_le_bytes());
    assert_eq!(ft.0, 1);
}
