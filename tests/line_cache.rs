use smetamath::line_cache::LineCache;

#[test]
fn test_from_offset() {
    let mut lc = LineCache::default();
    let text = "azerty\r\nazerty4\r\nazerty3\r\n".as_bytes();

    let (row, col) = lc.from_offset(&text, 10);
    println!("{}:{}", row, col);
    assert!(row == 2 && col == 3);

    let (row, col) = lc.from_offset(&text, 0);
    assert!(row == 1 && col == 1);
    println!("{}:{}", row, col);

    let (row, col) = lc.from_offset(&text, 1);
    assert!(row == 1 && col == 2);
    println!("{}:{}", row, col);

    let (row, col) = lc.from_offset(&text, 19);
    println!("{}:{}", row, col);
    assert!(row == 3 && col == 3);
}

#[test]
fn test_line_end() {
    let mut lc = LineCache::default();
    let text = "azerty\r\nazerty4\r\nazerty3\r\n".as_bytes();

    let line_end = LineCache::line_end(&text, 10);
    assert!(line_end == 16);
    println!("{}", line_end);

    let (row_a, col_a) = lc.from_offset(&text, line_end);
    println!("{}:{}", row_a, col_a);

    let (row_b, col_b) = lc.from_offset(&text, line_end + 1);
    println!("{}:{}", row_b, col_b);
    assert!(row_b == row_a + 1);
    assert!(col_b == 1);
}

/// A fixed pseudo-random sequence of offsets below `bound`.
fn offsets(bound: usize, n: usize) -> Vec<usize> {
    let mut state: u64 = 0x2545_f491_4f6c_dd1d;
    let mut out = Vec::new();
    for _ in 0..n {
        state ^= state << 13;
        state ^= state >> 7;
        state ^= state << 17;
        out.push((state % bound as u64) as usize);
    }
    out
}

#[test]
fn test_large() {
    // 40 MiB of lines of 30 letters and digits
    let test_size = 40 * 1024 * 1024;
    let row_size = 30;
    let row_end = 31;
    let nb_rows = test_size / (row_size + 1);

    let alphabet = b"abcdefghijklmnopqrstuvwxyzABCDEFGHIJKLMNOPQRSTUVWXYZ0123456789";
    let mut row_buf: String = (0..row_size)
        .map(|i| alphabet[(i * 7 + 3) % alphabet.len()] as char)
        .collect();
    row_buf += "\n";

    let mut buf_text: String = String::new();
    for _ in 1..nb_rows {
        buf_text += &row_buf;
    }
    let text = buf_text.as_bytes();

    let mut lc = LineCache::default();

    let line_end = LineCache::line_end(&text, 20);
    println!("{}", line_end);
    assert!(line_end == 30);

    let (row_a, col_a) = lc.from_offset(&text, line_end);
    println!("{}:{}", row_a, col_a);
    assert!(row_a == 1);
    assert!(col_a == row_end);

    let (row_b, col_b) = lc.from_offset(&text, line_end + 1);
    println!("{}:{}", row_b, col_b);
    assert!(row_b == row_a + 1);
    assert!(col_b == 1);

    for large_offset in offsets(text.len(), 20) {
        let (row_c, col_c) = lc.from_offset(&text, large_offset);
        let expected_row = 1 + (large_offset / 31);
        let expected_col = 1 + (large_offset % 31);
        assert!(row_c as usize == expected_row);
        assert!(col_c as usize == expected_col);

        let row_end = LineCache::line_end(&text, large_offset);
        let expected_row_end = expected_row * 31 - 1;
        assert!(row_end == expected_row_end);
    }
}

#[test]
fn to_offset_finds_line_starts() {
    let mut lc = LineCache::default();
    let text = "azerty\r\nazerty4\r\nazerty3\r\n".as_bytes();
    assert_eq!(lc.to_offset(&text, 1), 0);
    assert_eq!(lc.to_offset(&text, 2), 8);
    assert_eq!(lc.to_offset(&text, 3), 17);
    assert_eq!(lc.to_offset(&text, 4), 26);
}

#[test]
fn offsets_across_pages() {
    // lines of 9 bytes and a newline, over several pages of the index
    let mut text = Vec::new();
    for _ in 0..300 {
        text.extend_from_slice(b"123456789\n");
    }
    let mut lc = LineCache::default();
    for k in [0usize, 9, 10, 255, 256, 257, 511, 512, 1999, 2560, 2999, 3000] {
        let (line, col) = lc.from_offset(&text, k);
        assert_eq!((line as usize, col as usize), (1 + k / 10, 1 + k % 10));
        let start = lc.to_offset(&text, line);
        assert!(start <= k);
        assert_eq!(start, k - k % 10);
        let end = LineCache::line_end(&text, start);
        assert!(k <= end);
    }
    assert_eq!(LineCache::line_end(&text, 3000), 3000);
    assert_eq!(LineCache::line_end(&text, 5000), 3000);
}

#[test]
fn empty_buffer() {
    let mut lc = LineCache::default();
    let text: &[u8] = b"";
    assert_eq!(lc.from_offset(text, 0), (1, 1));
    assert_eq!(lc.to_offset(text, 1), 0);
    assert_eq!(LineCache::line_end(text, 0), 0);
}

#[test]
fn one_cache_two_buffers_of_one_length() {
    let mut lc = LineCache::default();
    let a = b"ab\ncd\nef".to_vec();
    let b = b"abcdef\n\n".to_vec();
    assert_eq!(lc.from_offset(&a, 4), (2, 2));
    assert_eq!(lc.from_offset(&b, 7), (2, 1));
    assert_eq!(lc.from_offset(&a, 7), (3, 2));
    assert_eq!(lc.to_offset(&b, 3), 8);
    assert_eq!(lc.to_offset(&a, 3), 6);
}
