use snapsync::content::{compare_chunks, compare_streams, ChunkStep, SizeMismatch};

#[test]
fn both_chunks_empty_is_equal() {
    assert_eq!(compare_chunks(b"", b""), ChunkStep::Equal);
}

#[test]
fn one_chunk_empty_is_truncated() {
    assert_eq!(compare_chunks(b"", b"x"), ChunkStep::Truncated);
    assert_eq!(compare_chunks(b"x", b""), ChunkStep::Truncated);
}

#[test]
fn chunks_advance_by_the_shorter() {
    assert_eq!(compare_chunks(b"abcdef", b"abc"), ChunkStep::Advance(3));
    assert_eq!(compare_chunks(b"ab", b"abcdef"), ChunkStep::Advance(2));
    assert_eq!(compare_chunks(b"same", b"same"), ChunkStep::Advance(4));
}

#[test]
fn chunks_differ_only_within_the_shared_bytes() {
    assert_eq!(compare_chunks(b"abX", b"abY"), ChunkStep::Different);
    assert_eq!(compare_chunks(b"Xbc", b"abcdef"), ChunkStep::Different);
    assert_eq!(compare_chunks(b"abc", b"abcZ"), ChunkStep::Advance(3));
}

#[test]
fn equal_streams_are_equal_whatever_the_chunks() {
    let data: Vec<u8> = (0..200u32).map(|i| (i * 7 % 251) as u8).collect();
    for left in [1usize, 2, 3, 7, 64, 200, 1000] {
        for right in [1usize, 5, 13, 199, 4096] {
            assert_eq!(compare_streams(&data, &data, left, right), Ok(true));
        }
    }
    assert_eq!(compare_streams(b"", b"", 1, 1), Ok(true));
}

#[test]
fn a_differing_byte_makes_streams_differ() {
    let left: Vec<u8> = (0..100u8).collect();
    for at in [0usize, 1, 49, 98, 99] {
        let mut right = left.clone();
        right[at] ^= 0x55;
        for chunk in [1usize, 3, 50, 100, 128] {
            assert_eq!(compare_streams(&left, &right, chunk, 7), Ok(false));
            assert_eq!(compare_streams(&right, &left, 7, chunk), Ok(false));
        }
    }
}

#[test]
fn streams_of_different_sizes_are_a_mismatch() {
    assert_eq!(compare_streams(b"abc", b"abcd", 2, 2), Err(SizeMismatch));
    assert_eq!(compare_streams(b"abcd", b"abc", 16, 1), Err(SizeMismatch));
    assert_eq!(compare_streams(b"", b"a", 1, 1), Err(SizeMismatch));
}

#[test]
fn a_difference_is_seen_before_a_size_mismatch() {
    assert_eq!(compare_streams(b"abX", b"abYZ", 1, 1), Ok(false));
    assert_eq!(compare_streams(b"Xbcd", b"ab", 4, 4), Ok(false));
}
