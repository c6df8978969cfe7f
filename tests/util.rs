use smetamath::util;
use smetamath::util::find_chapter_header;
use smetamath::util::RangeError;
use std::sync::Arc;

#[test]
fn test_ptr_eq() {
    let a1 = Arc::new("Hello, world".to_string());
    let a2 = a1.clone();
    assert!(!util::ptr_eq::<Arc<String>>(&a1, &a2));
    assert!(util::ptr_eq::<String>(&a1, &a2));
}

#[test]
fn test_fast_clear() {
    let mut vec = vec![1u32, 2, 3, 4, 5];
    util::fast_clear(&mut vec);
    assert_eq!(vec.len(), 0);
    assert_eq!(vec.capacity(), 5);
}

#[test]
fn test_fast_extend() {
    let mut vec = vec![1u32, 2, 3];
    util::fast_extend(&mut vec, &[4, 5]);
    assert_eq!(vec, vec![1, 2, 3, 4, 5]);
    util::fast_extend(&mut vec, &[6]);
    assert_eq!(vec, vec![1, 2, 3, 4, 5, 6]);
}

#[test]
fn test_copy_portion() {
    let mut s = Vec::from(b"Hello world" as &[u8]);
    util::copy_portion(&mut s, 2..4).unwrap();
    assert_eq!(s, b"Hello worldll");
    util::copy_portion(&mut s, 0..1).unwrap();
    assert_eq!(s, b"Hello worldllH");
    util::copy_portion(&mut s, 6..11).unwrap();
    assert_eq!(s, b"Hello worldllHworld");
}

#[test]
fn copy_portion_out_of_range() {
    let mut s = Vec::from(b"Hello world" as &[u8]);
    let r = util::copy_portion(&mut s, 11..12);
    assert_eq!(r, Err(RangeError { start: 11, end: 12, len: 11 }));
    assert_eq!(s, b"Hello world");
    let r = util::copy_portion(&mut s, 5..3);
    assert_eq!(r, Err(RangeError { start: 5, end: 3, len: 11 }));
    assert_eq!(s, b"Hello world");
    assert_eq!(util::copy_portion(&mut s, 11..11), Ok(()));
    assert_eq!(s, b"Hello world");
}

#[test]
fn extend_twice_is_extend_by_concatenation() {
    let mut a = vec![1u8, 2];
    util::fast_extend(&mut a, &[3, 4, 5]);
    util::fast_extend(&mut a, &[6, 7]);
    let mut b = vec![1u8, 2];
    util::fast_extend(&mut b, &[3, 4, 5, 6, 7]);
    assert_eq!(a, b);
    util::fast_extend(&mut b, &[]);
    assert_eq!(a, b);
}

fn marker() -> Vec<u8> {
    let mut m = Vec::new();
    for i in 0..79 {
        m.push(if i % 2 == 0 { b'#' } else { b'*' });
    }
    m
}

#[test]
fn chapter_found_at_every_alignment() {
    for prefix in 0..4usize {
        for shift in 0..4usize {
            let mut text: Vec<u8> = vec![b'x'; shift];
            text.extend_from_slice(&vec![b'a'; prefix]);
            text.extend_from_slice(b"\n$(\n");
            text.extend_from_slice(&marker());
            text.push(b'\n');
            assert_eq!(find_chapter_header(&text[shift..]), Some(prefix + 1));
        }
    }
}

#[test]
fn chapter_marker_at_end_of_buffer() {
    let mut text = b"abc\r\n$(\r\n\r\n".to_vec();
    text.extend_from_slice(&marker());
    assert_eq!(find_chapter_header(&text), Some(5));
}

#[test]
fn chapter_needs_its_comment_opener() {
    let mut text = b"x\n".to_vec();
    text.extend_from_slice(&marker());
    text.push(b'\n');
    assert_eq!(find_chapter_header(&text), None);
    let short = b"\n$(\n#*#*#*#*\n".to_vec();
    assert_eq!(find_chapter_header(&short), None);
}

#[test]
fn first_of_two_chapters() {
    let mut text = b"\n$(\n".to_vec();
    text.extend_from_slice(&marker());
    text.extend_from_slice(b"\nmiddle\n$(\n");
    text.extend_from_slice(&marker());
    text.push(b'\n');
    assert_eq!(find_chapter_header(&text), Some(1));
    assert_eq!(find_chapter_header(&text[2..]), Some(89));
}

#[test]
fn test_find_chapter() {
    assert_eq!(find_chapter_header(b""), None);
    assert_eq!(find_chapter_header(b"#*#*"), None);
    assert_eq!(find_chapter_header(b"Hello\n$(\n#*#*#*#*#*#*#*#*#*#*#*#*#*#*#*#*#*\
        #*#*#*#*#*#*#*#*#*#*#*#*#*#*#*#*#*#*#*#*#*#*#\n"),
            Some(6));
    assert_eq!(find_chapter_header(b"#*#*#*#*#*#*#*#*#*#*#*#*#*#*#*#*#*#*#*#*#*#*#\
        *#*#*#*#*#*#*#*#*#*#*#*#*#*#*#*#*#\nHello\n$(\n#*#*#*#*#*#*#*#*#*#*#*#*#*#*#*#*#\
        *#*#*#*#*#*#*#*#*#*#*#*#*#*#*#*#*#*#*#*#*#*#*#\n"),
            Some(86));
    assert_eq!(find_chapter_header(b"\n$(\n#*#*#*#*#*#*#*#*#*#*#*#*#*#*#*#*#*#*#*#\
        *#*#*#*#*#*#*#*#*#*#*#*#*#*#*#*#*#*#*#*#\n"),
            Some(1));
    assert_eq!(find_chapter_header(b"\r\n$(\r\n#*#*#*#*#*#*#*#*#*#*#*#*#*#*#*#*#*#\
        *#*#*#*#*#*#*#*#*#*#*#*#*#*#*#*#*#*#*#*#*#*#\n"),
            Some(2));
    assert_eq!(find_chapter_header(b"\n$(MOO\r\n#*#*#*#*#*#*#*#*#*#*#*#*#*#*#*#*#*\
        #*#*#*#*#*#*#*#*#*#*#*#*#*#*#*#*#*#*#*#*#*#*#\n"),
            None);
    assert_eq!(find_chapter_header(b"\n$(\r\n#*#*#*#*#*#*#*#*#*#*#*###*#*#*#*#*#*#\
        *#*#*#*#*#*#*#*#*#*#*#*#*#*#*#*#*#*#*#*#*#\n"),
            None);

}
