use grouse::lex::{compare, compare_text, Rank};

#[test]
fn compare_equal_strings() {
    assert_eq!(compare(b"", b""), Rank::Same);
    assert_eq!(compare(b"abc", b"abc"), Rank::Same);
}

#[test]
fn compare_prefix_sorts_first() {
    assert_eq!(compare(b"", b"a"), Rank::Before);
    assert_eq!(compare(b"ab", b"abc"), Rank::Before);
    assert_eq!(compare(b"abc", b"ab"), Rank::After);
}

#[test]
fn compare_first_difference_decides() {
    assert_eq!(compare(b"abd", b"abcz"), Rank::After);
    assert_eq!(compare(b"abcz", b"abd"), Rank::Before);
    assert_eq!(compare(&[0, 255], &[1, 0]), Rank::Before);
    assert_eq!(compare(&[200], &[100, 100]), Rank::After);
}

#[test]
fn compare_text_by_bytes() {
    assert_eq!(compare_text("a.txt", "a.txt"), Rank::Same);
    assert_eq!(compare_text("a.txt", "b.txt"), Rank::Before);
    assert_eq!(compare_text("dir/b", "dir/a"), Rank::After);
    assert_eq!(compare_text("Z", "a"), Rank::Before);
    assert_eq!(compare_text("z", "\u{e9}"), Rank::Before);
    assert_eq!(compare_text("\u{e9}", "\u{e8}"), Rank::After);
}

#[test]
fn compare_agrees_with_slices() {
    let samples: [&[u8]; 6] = [b"", b"a", b"ab", b"b", b"ba", &[255, 0]];
    for first in samples {
        for second in samples {
            let expected = match first.cmp(second) {
                std::cmp::Ordering::Less => Rank::Before,
                std::cmp::Ordering::Equal => Rank::Same,
                std::cmp::Ordering::Greater => Rank::After,
            };
            assert_eq!(compare(first, second), expected);
        }
    }
}
