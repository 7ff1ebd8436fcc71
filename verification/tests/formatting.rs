use rust_macos_gui::thousands::format_with_thousands;

#[test]
fn thousands_small_numbers_have_no_separator() {
    assert_eq!(format_with_thousands(0), "0");
    assert_eq!(format_with_thousands(7), "7");
    assert_eq!(format_with_thousands(42), "42");
    assert_eq!(format_with_thousands(999), "999");
}

#[test]
fn thousands_groups_of_three() {
    assert_eq!(format_with_thousands(1000), "1,000");
    assert_eq!(format_with_thousands(12345), "12,345");
    assert_eq!(format_with_thousands(100000), "100,000");
    assert_eq!(format_with_thousands(1234567), "1,234,567");
    assert_eq!(format_with_thousands(1000001), "1,000,001");
}

#[test]
fn thousands_largest_value() {
    let s = format_with_thousands(usize::MAX);
    let plain: String = s.chars().filter(|c| *c != ',').collect();
    assert_eq!(plain, usize::MAX.to_string());
    if usize::BITS == 64 {
        assert_eq!(s, "18,446,744,073,709,551,615");
    }
}

#[test]
fn thousands_round_trip_and_layout() {
    for n in [0usize, 5, 99, 1000, 65536, 987654321, 1usize << 40] {
        let s = format_with_thousands(n);
        let plain: String = s.chars().filter(|c| *c != ',').collect();
        assert_eq!(plain.parse::<usize>().unwrap(), n);
        assert_eq!(plain, n.to_string());
        let chars: Vec<char> = s.chars().collect();
        assert!(chars[0] != ',');
        for (i, c) in chars.iter().enumerate() {
            let after = chars.len() - 1 - i;
            assert_eq!(*c == ',', after % 4 == 3);
        }
    }
}
