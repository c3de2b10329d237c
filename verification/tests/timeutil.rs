use rune::timeutil::{civil_from_days, compact_from_secs, iso_from_secs, now_compact, now_iso, parts};

#[test]
fn civil_dates_of_known_days() {
    assert_eq!(civil_from_days(0), (1970, 1, 1));
    assert_eq!(civil_from_days(-1), (1969, 12, 31));
    assert_eq!(civil_from_days(59), (1970, 3, 1));
    assert_eq!(civil_from_days(11016), (2000, 2, 29));
    assert_eq!(civil_from_days(19723), (2024, 1, 1));
    assert_eq!(civil_from_days(-719468), (0, 3, 1));
}

#[test]
fn timestamps_format_utc() {
    assert_eq!(iso_from_secs(0), "1970-01-01T00:00:00Z");
    assert_eq!(iso_from_secs(951782399), "2000-02-28T23:59:59Z");
    assert_eq!(compact_from_secs(1704067200 + 3723), "2024-01-01-01-02-03");
    assert_eq!(parts(86399), (1970, 1, 1, 23, 59, 59));
}

#[test]
fn clock_stamps_have_their_shape() {
    let iso = now_iso();
    assert_eq!(iso.len(), 20);
    assert!(iso.ends_with('Z'));
    assert_eq!(&iso[10..11], "T");
    let compact = now_compact();
    assert_eq!(compact.len(), 19);
    assert_eq!(compact.matches('-').count(), 5);
}

#[test]
fn compact_stamps_sort_in_time_order() {
    let instants: [u64; 7] = [0, 59, 3600, 86399, 951782400, 1704067199, 253402300799];
    for i in 0..instants.len() {
        for j in (i + 1)..instants.len() {
            let a = compact_from_secs(instants[i]);
            let b = compact_from_secs(instants[j]);
            assert!(a < b, "{} should sort before {}", a, b);
        }
    }
    assert_eq!(compact_from_secs(253402300799), "9999-12-31-23-59-59");
}
