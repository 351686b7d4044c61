use snapsync::key::{FileKey, Timestamp};
use snapsync::path::{compare_bytes, Ranking, RelativePath};

fn rel(text: &str) -> RelativePath {
    RelativePath::from_bytes(text.as_bytes().to_vec())
}

#[test]
fn bytes_compare_lexicographically() {
    assert_eq!(compare_bytes(b"", b""), Ranking::Same);
    assert_eq!(compare_bytes(b"", b"a"), Ranking::Before);
    assert_eq!(compare_bytes(b"a", b""), Ranking::After);
    assert_eq!(compare_bytes(b"abc", b"abd"), Ranking::Before);
    assert_eq!(compare_bytes(b"abd", b"abc"), Ranking::After);
    assert_eq!(compare_bytes(b"ab", b"abc"), Ranking::Before);
    assert_eq!(compare_bytes(b"b", b"abc"), Ranking::After);
    assert_eq!(compare_bytes(b"same", b"same"), Ranking::Same);
    assert_eq!(compare_bytes(&[0xff], &[0x00, 0x01]), Ranking::After);
}

#[test]
fn paths_compare_by_bytes_not_by_component() {
    assert_eq!(rel("a/b").compare(&rel("a.b")), Ranking::After);
    assert_eq!(rel("a").compare(&rel("a/b")), Ranking::Before);
    assert!(rel("x/y").same_as(&rel("x/y")));
    assert!(!rel("x/y").same_as(&rel("x/Y")));
}

#[test]
fn path_round_trips_its_bytes() {
    let bytes = vec![b'a', 0xfe, b'/', 0x80];
    let path = RelativePath::from_bytes(bytes.clone());
    assert_eq!(path.as_bytes(), &bytes[..]);
    assert_eq!(path.clone().into_bytes(), bytes);
}

#[test]
fn file_name_is_what_follows_the_last_separator() {
    assert_eq!(rel("sub/b.txt").file_name(), b"b.txt");
    assert_eq!(rel("a/b/c").file_name(), b"c");
    assert_eq!(rel("plain").file_name(), b"plain");
    assert_eq!(rel("").file_name(), b"");
    assert_eq!(rel("dir/").file_name(), b"");
    assert_eq!(rel("/lead").file_name(), b"lead");
}

#[test]
fn timestamps_order_by_seconds_then_nanoseconds() {
    let a = Timestamp::new(5, 999_999_999);
    let b = Timestamp::new(6, 0);
    assert_eq!(a.compare(&b), Ranking::Before);
    assert_eq!(b.compare(&a), Ranking::After);
    assert_eq!(a.compare(&a), Ranking::Same);
    assert_eq!(Timestamp::new(-1, 0).compare(&Timestamp::new(0, 0)), Ranking::Before);
    assert_eq!(Timestamp::new(3, 1).compare(&Timestamp::new(3, 2)), Ranking::Before);
}

#[test]
fn keys_order_by_size_first() {
    let small_late = FileKey::new(1, Timestamp::new(100, 0));
    let big_early = FileKey::new(2, Timestamp::new(1, 0));
    assert_eq!(small_late.compare(&big_early), Ranking::Before);
    assert_eq!(big_early.compare(&small_late), Ranking::After);
    let same_size_later = FileKey::new(1, Timestamp::new(100, 1));
    assert_eq!(small_late.compare(&same_size_later), Ranking::Before);
    assert_eq!(small_late.compare(&small_late), Ranking::Same);
    assert_eq!(small_late, FileKey::new(1, Timestamp::new(100, 0)));
    assert_ne!(small_late, same_size_later);
}

#[test]
fn time_after_epoch() {
    assert_eq!(Timestamp::after_epoch(0, 0), Timestamp::new(0, 0));
    assert_eq!(Timestamp::after_epoch(1_700_000_000, 123), Timestamp::new(1_700_000_000, 123));
    assert_eq!(Timestamp::after_epoch(u64::MAX, 7), Timestamp::new(i64::MAX, 7));
    assert_eq!(Timestamp::after_epoch(i64::MAX as u64, 7), Timestamp::new(i64::MAX, 7));
}

#[test]
fn time_before_epoch() {
    assert_eq!(Timestamp::before_epoch(0, 0), Timestamp::new(0, 0));
    assert_eq!(Timestamp::before_epoch(1, 0), Timestamp::new(-1, 0));
    assert_eq!(Timestamp::before_epoch(0, 1), Timestamp::new(-1, 999_999_999));
    assert_eq!(Timestamp::before_epoch(2, 250_000_000), Timestamp::new(-3, 750_000_000));
    assert_eq!(Timestamp::before_epoch(u64::MAX, 5), Timestamp::new(i64::MIN, 0));
    assert_eq!(Timestamp::before_epoch(i64::MAX as u64, 0), Timestamp::new(i64::MIN, 0));
}

#[test]
fn earlier_before_epoch_orders_first() {
    let further = Timestamp::before_epoch(2, 250_000_000);
    let nearer = Timestamp::before_epoch(2, 0);
    assert_eq!(further.compare(&nearer), Ranking::Before);
    assert_eq!(nearer.compare(&Timestamp::after_epoch(0, 0)), Ranking::Before);
}
