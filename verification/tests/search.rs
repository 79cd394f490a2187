use dinosaur::search::{eq_at, find_bwd, find_fwd, first_pos, last_pos};

#[test]
fn eq_at_compares_with_or_without_case() {
    assert!(eq_at(b"Hello", b"hello", true));
    assert!(!eq_at(b"Hello", b"hello", false));
    assert!(eq_at(b"a-1", b"a-1", false));
    assert!(!eq_at(b"ab", b"abc", true));
    assert!(!eq_at(b"[", b"{", true));
}

#[test]
fn first_and_last_positions() {
    assert_eq!(first_pos(b"xaAa", b'a', false), Some(1));
    assert_eq!(first_pos(b"xAaA", b'a', true), Some(1));
    assert_eq!(first_pos(b"xAaA", b'a', false), Some(2));
    assert_eq!(first_pos(b"xyz", b'a', true), None);
    assert_eq!(last_pos(b"aAxa", b'A', true), Some(3));
    assert_eq!(last_pos(b"aAxa", b'A', false), Some(1));
    assert_eq!(last_pos(b"1,2", b',', true), Some(1));
    assert_eq!(last_pos(b"", b'x', true), None);
}

#[test]
fn forward_search() {
    let hay = b"abc ABC abc";
    assert_eq!(find_fwd(hay, b"abc", 0, false), Some(0));
    assert_eq!(find_fwd(hay, b"abc", 1, false), Some(8));
    assert_eq!(find_fwd(hay, b"abc", 1, true), Some(4));
    assert_eq!(find_fwd(hay, b"abc", 9, true), None);
    assert_eq!(find_fwd(hay, b"abc", 100, true), None);
    assert_eq!(find_fwd(hay, b"", 0, true), None);
    assert_eq!(find_fwd(b"ab", b"abc", 0, true), None);
    assert_eq!(find_fwd(b"aaab", b"aab", 0, false), Some(1));
}

#[test]
fn backward_search() {
    let hay = b"abc ABC abc";
    assert_eq!(find_bwd(hay, b"abc", hay.len(), false), Some(8));
    assert_eq!(find_bwd(hay, b"abc", 10, false), Some(0));
    assert_eq!(find_bwd(hay, b"abc", 10, true), Some(4));
    assert_eq!(find_bwd(hay, b"abc", 2, true), None);
    assert_eq!(find_bwd(hay, b"", 5, true), None);
    assert_eq!(find_bwd(b"abaab", b"ab", 5, false), Some(3));
    assert_eq!(find_bwd(b"abaab", b"ab", 4, false), Some(0));
}

#[test]
fn backward_search_with_end_past_the_bytes() {
    assert_eq!(find_bwd(b"abc", b"xy", 4, false), None);
    assert_eq!(find_bwd(b"abc", b"ab", 4, false), Some(0));
    assert_eq!(find_bwd(b"abc", b"AB", 4, true), Some(0));
}

#[test]
fn forward_and_backward_over_everything_agree() {
    for (hay, needle) in [(&b"xaby ab"[..], &b"ab"[..]), (b"abc", b"zz"), (b"AbAB", b"ab"), (b"", b"a")] {
        for ci in [false, true] {
            let f = find_fwd(hay, needle, 0, ci);
            let b = find_bwd(hay, needle, hay.len(), ci);
            assert_eq!(f.is_some(), b.is_some());
            if let (Some(p), Some(q)) = (f, b) {
                assert!(p <= q);
            }
        }
    }
}
