use dinosaur::text::{byte_unit, decimal_string, format_count};

#[test]
fn format_count_groups_thousands() {
    assert_eq!(format_count(0), "0");
    assert_eq!(format_count(7), "7");
    assert_eq!(format_count(999), "999");
    assert_eq!(format_count(1000), "1,000");
    assert_eq!(format_count(12345), "12,345");
    assert_eq!(format_count(1234567), "1,234,567");
    assert_eq!(format_count(u64::MAX), "18,446,744,073,709,551,615");
}

#[test]
fn format_count_without_commas_is_the_number() {
    for n in [0u64, 5, 100, 1000, 987654321, u64::MAX] {
        assert_eq!(format_count(n).replace(',', ""), n.to_string());
    }
}

#[test]
fn decimal_string_matches_std() {
    for n in [0u64, 9, 10, 4096, 18446744073709551615] {
        assert_eq!(decimal_string(n), n.to_string());
    }
}

#[test]
fn byte_unit_picks_the_largest_fitting_unit() {
    assert_eq!(byte_unit(0), 0);
    assert_eq!(byte_unit(1023), 0);
    assert_eq!(byte_unit(1024), 1);
    assert_eq!(byte_unit(1024 * 1024 - 1), 1);
    assert_eq!(byte_unit(1024 * 1024), 2);
    assert_eq!(byte_unit(5 * 1024 * 1024 * 1024), 3);
    assert_eq!(byte_unit(1u64 << 40), 4);
    assert_eq!(byte_unit(1u64 << 50), 5);
    assert_eq!(byte_unit(u64::MAX), 5);
}

#[test]
fn groups_are_threes_after_a_short_lead() {
    for n in [0u64, 12, 123, 1234, 123456, 1234567, u64::MAX] {
        let s = format_count(n);
        let groups: Vec<&str> = s.split(',').collect();
        assert!((1..=3).contains(&groups[0].len()));
        assert!(groups[1..].iter().all(|g| g.len() == 3));
    }
}
