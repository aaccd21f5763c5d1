use splitter::naming::{part_file_name, MAX_ORDERED_PARTS};

#[test]
fn first_part_has_four_digits() {
    assert_eq!(part_file_name("foo", 1), "foo.part0001.split");
}

#[test]
fn numbers_are_padded_to_four_digits() {
    assert_eq!(part_file_name("foo", 0), "foo.part0000.split");
    assert_eq!(part_file_name("foo", 9), "foo.part0009.split");
    assert_eq!(part_file_name("foo", 10), "foo.part0010.split");
    assert_eq!(part_file_name("foo", 42), "foo.part0042.split");
    assert_eq!(part_file_name("foo", 99), "foo.part0099.split");
    assert_eq!(part_file_name("foo", 100), "foo.part0100.split");
    assert_eq!(part_file_name("foo", 999), "foo.part0999.split");
    assert_eq!(part_file_name("foo", 1000), "foo.part1000.split");
    assert_eq!(part_file_name("foo", 9999), "foo.part9999.split");
}

#[test]
fn large_numbers_take_more_digits() {
    assert_eq!(part_file_name("foo", 10000), "foo.part10000.split");
    assert_eq!(part_file_name("foo", 123456), "foo.part123456.split");
    assert_eq!(
        part_file_name("foo", u64::MAX),
        "foo.part18446744073709551615.split"
    );
}

#[test]
fn name_keeps_the_whole_path() {
    assert_eq!(
        part_file_name("/tmp/some dir/data.bin", 7),
        "/tmp/some dir/data.bin.part0007.split"
    );
    assert_eq!(part_file_name("", 3), ".part0003.split");
    assert_eq!(part_file_name("gr\u{fc}n", 3), "gr\u{fc}n.part0003.split");
}

#[test]
fn name_matches_std_formatting() {
    let mut i: u64 = 0;
    while i < 12000 {
        assert_eq!(part_file_name("f", i), format!("{}.part{:04}.split", "f", i));
        i += 1;
    }
}

#[test]
fn names_sort_in_part_order_up_to_the_limit() {
    assert_eq!(MAX_ORDERED_PARTS, 9999);
    let mut i: u64 = 1;
    while i < MAX_ORDERED_PARTS {
        assert!(part_file_name("foo", i) < part_file_name("foo", i + 1));
        i += 1;
    }
}

#[test]
fn names_beyond_the_limit_sort_out_of_order() {
    assert!(part_file_name("foo", 10000) < part_file_name("foo", 1001));
}
