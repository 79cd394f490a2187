use dinosaur::lines::{LineIndex, DEFAULT_SAMPLE};
use std::sync::atomic::{AtomicU64, Ordering};

fn index(data: &[u8], sample: u64) -> LineIndex {
    let progress = AtomicU64::new(0);
    let idx = LineIndex::build(data, sample, &progress);
    assert_eq!(progress.load(Ordering::Relaxed), data.len() as u64);
    idx
}

#[test]
fn counts_lines_with_and_without_trailing_newline() {
    let idx = index(b"a\nbb\n\nccc", 2);
    assert_eq!(idx.line_count(), 4);
    assert_eq!(idx.byte_count(), 9);
    let idx = index(b"a\nbb\n", 2);
    assert_eq!(idx.line_count(), 2);
    assert_eq!(idx.line_count(), 2);
}

#[test]
fn empty_file_has_no_lines() {
    let idx = index(b"", 0);
    assert_eq!(idx.line_count(), 0);
    assert_eq!(idx.byte_count(), 0);
    assert_eq!(idx.line_range(b"", 0), (0, 0));
    assert_eq!(idx.line_at_offset(b"", 5), 0);
}

#[test]
fn line_ranges_exclude_the_newline() {
    let data = b"a\nbb\n\nccc";
    for sample in [1u64, 2, 3, DEFAULT_SAMPLE] {
        let idx = index(data, sample);
        assert_eq!(idx.line_range(data, 0), (0, 1));
        assert_eq!(idx.line_range(data, 1), (2, 4));
        assert_eq!(idx.line_range(data, 2), (5, 5));
        assert_eq!(idx.line_range(data, 3), (6, 9));
        assert_eq!(idx.line_range(data, 4), (9, 9));
        assert_eq!(idx.line_range(data, 1000), (9, 9));
    }
}

#[test]
fn line_bytes_trims_one_carriage_return() {
    let data = b"x,y\r\nz\r\r\n\r\nlast";
    let idx = index(data, 2);
    assert_eq!(idx.line_bytes(data, 0), b"x,y");
    assert_eq!(idx.line_bytes(data, 1), b"z\r");
    assert_eq!(idx.line_bytes(data, 2), b"");
    assert_eq!(idx.line_bytes(data, 3), b"last");
    assert_eq!(idx.line_bytes(data, 4), b"");
}

#[test]
fn line_start_is_clamped_to_end() {
    let data = b"one\ntwo\n";
    let idx = index(data, 1);
    assert_eq!(idx.line_start(data, 0), 0);
    assert_eq!(idx.line_start(data, 1), 4);
    assert_eq!(idx.line_start(data, 2), 8);
}

#[test]
fn offsets_map_to_their_lines() {
    let data = b"a\nbb\n\nccc";
    let idx = index(data, 2);
    let expected = [0u64, 0, 1, 1, 1, 2, 3, 3, 3, 3];
    for (o, line) in expected.iter().enumerate() {
        assert_eq!(idx.line_at_offset(data, o), *line, "offset {o}");
    }
    assert_eq!(idx.line_at_offset(data, 1000), 3);
    // A file ending with a newline keeps offsets past it on the last line.
    let data = b"a\nb\n";
    let idx = index(data, 1);
    assert_eq!(idx.line_at_offset(data, 4), 1);
}

#[test]
fn line_start_round_trips_through_line_at_offset() {
    let mut data = Vec::new();
    for i in 0..20000u32 {
        data.extend_from_slice(format!("row {i}\n").as_bytes());
        if i % 7 == 0 {
            data.push(b'\n');
        }
    }
    let idx = index(&data, 64);
    for line in (0..idx.line_count()).step_by(97) {
        let start = idx.line_start(&data, line);
        assert_eq!(idx.line_at_offset(&data, start), line);
    }
}

#[test]
fn parallel_build_matches_a_plain_scan() {
    let mut data = Vec::new();
    for i in 0..50000u32 {
        data.extend_from_slice(format!("{}", i % 13).repeat((i % 5) as usize).as_bytes());
        data.push(b'\n');
    }
    data.extend_from_slice(b"tail");
    let starts: Vec<usize> = std::iter::once(0)
        .chain(data.iter().enumerate().filter(|(_, b)| **b == b'\n').map(|(i, _)| i + 1))
        .collect();
    for sample in [1u64, 7, DEFAULT_SAMPLE] {
        let idx = index(&data, sample);
        assert_eq!(idx.line_count(), 50001);
        for line in [0u64, 1, 6, 7, 4095, 4096, 4097, 49999, 50000] {
            assert_eq!(idx.line_start(&data, line), starts[line as usize]);
        }
    }
}

#[test]
fn builds_agree_whatever_the_thread_count() {
    let mut data = Vec::new();
    for i in 0..20000u32 {
        data.extend_from_slice(format!("row {}", i * 7).as_bytes());
        data.push(b'\n');
    }
    let mut results = Vec::new();
    for threads in [1usize, 3, 8] {
        let pool = rayon::ThreadPoolBuilder::new().num_threads(threads).build().unwrap();
        let idx = pool.install(|| index(&data, 5));
        let ranges: Vec<(usize, usize)> = (0..idx.line_count()).map(|l| idx.line_range(&data, l)).collect();
        results.push((idx.line_count(), idx.byte_count(), ranges));
    }
    assert_eq!(results[0], results[1]);
    assert_eq!(results[0], results[2]);
}

#[test]
fn counts_are_read_through_the_getters() {
    let idx = index(b"a\nbb\nccc", 2);
    assert_eq!(idx.line_count(), 3);
    assert_eq!(idx.byte_count(), 8);
}

#[test]
fn the_end_of_an_unterminated_last_line_maps_to_it() {
    let data = b"ab\ncd";
    let idx = index(data, 1);
    assert_eq!(idx.line_at_offset(data, data.len()), 1);
    assert_eq!(idx.line_at_offset(data, 2), 0);
    assert_eq!(idx.line_at_offset(data, 3), 1);
}
