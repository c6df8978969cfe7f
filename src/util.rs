//! Buffer primitives, and the scanner that finds chapter headers in a
//! database's text.
use vstd::prelude::*;

verus! {

/// The hasher that the library's hash maps use.
pub type FnvBuildHasher = std::hash::BuildHasherDefault<fnv::FnvHasher>;

/// A hash map keyed through [`FnvBuildHasher`].
pub type HashMap<K, V> = std::collections::HashMap<K, V, FnvBuildHasher>;

#[verifier::external_type_specification]
#[verifier::external_body]
pub struct ExFnvHasher(fnv::FnvHasher);

#[verifier::external_type_specification]
#[verifier::external_body]
#[verifier::reject_recursive_types(H)]
pub struct ExBuildHasherDefault<H>(std::hash::BuildHasherDefault<H>);

/// A map from a buffer's address and length to its line index.
pub type IndexMap = HashMap<(usize, usize), Vec<u32>>;

/// The map that holds no index.
pub open spec fn no_indexes() -> Map<(usize, usize), Vec<u32>> {
    Map::empty()
}

/// Creates an empty map with the FNV hasher.
///
/// Relies on `HashMap::with_hasher`, which makes an empty map, and on
/// `BuildHasherDefault::default` for `fnv::FnvHasher`.
#[verifier::external_body]
pub fn new_map() -> (r: IndexMap)
    ensures
        r@ == no_indexes(),
{
    IndexMap::with_hasher(FnvBuildHasher::default())
}

/// Whether `x` and `y` point at the same address.
///
/// Relies on `std::ptr::eq`, which compares addresses only; nothing is
/// promised of the values.
#[verifier::external_body]
pub fn ptr_eq<T>(x: &T, y: &T) -> (r: bool) {
    std::ptr::eq(x, y)
}

/// The address of the first byte of `buf`.
///
/// Relies on `<[u8]>::as_ptr`; nothing is known of the address.
#[verifier::external_body]
pub(crate) fn address_of(buf: &[u8]) -> (r: usize) {
    buf.as_ptr() as usize
}

/// Empties `vec`, keeping its allocation for reuse.
pub fn fast_clear<T: Copy>(vec: &mut Vec<T>)
    ensures
        final(vec)@ == Seq::<T>::empty(),
{
    vec.clear();
}

/// Appends `src[start..start + count]` to `dst`, with the one- and
/// two-element copies that dominate in practice done directly.
fn short_copy<T: Copy>(dst: &mut Vec<T>, src: &[T], start: usize, count: usize)
    requires
        start + count <= src@.len(),
    ensures
        final(dst)@ == old(dst)@ + src@.subrange(start as int, start + count),
{
    if count == 1 {
        dst.push(src[start]);
    } else if count == 2 {
        dst.push(src[start]);
        dst.push(src[start + 1]);
    } else {
        let n = src.len();
        let mut i: usize = 0;
        while i < count
            invariant
                start + count <= src@.len(),
                n == src@.len(),
                i <= count,
                dst@ == old(dst)@ + src@.subrange(start as int, start + i),
            decreases count - i,
        {
            dst.push(src[start + i]);
            i = i + 1;
            proof {
                assert(dst@ =~= old(dst)@ + src@.subrange(start as int, start + i));
            }
        }
    }
    proof {
        assert(final(dst)@ =~= old(dst)@ + src@.subrange(start as int, start + count));
    }
}

/// Appends the elements of `other` to `vec`.
pub fn fast_extend<T: Copy>(vec: &mut Vec<T>, other: &[T])
    ensures
        final(vec)@ == old(vec)@ + other@,
{
    vec.reserve(other.len());
    short_copy(vec, other, 0, other.len());
    proof {
        assert(other@.subrange(0, other@.len() as int) =~= other@);
    }
}

/// Appending `a` and then `c` gives what appending `a` followed by `c` in
/// one call gives.
pub proof fn law_extend_twice<T>(v: Seq<T>, a: Seq<T>, c: Seq<T>)
    ensures
        (v + a) + c == v + (a + c),
{
    assert((v + a) + c =~= v + (a + c));
}

/// A range that does not lie within the buffer it was meant for.
#[derive(Debug, Clone, Copy, PartialEq, Eq, Structural)]
pub struct RangeError {
    pub start: usize,
    pub end: usize,
    pub len: usize,
}

/// Appends a copy of `vec[from]` to the end of `vec`.
///
/// A range that is reversed or ends past the current length is refused,
/// before anything is copied.
pub fn copy_portion(vec: &mut Vec<u8>, from: core::ops::Range<usize>) -> (r: Result<(), RangeError>)
    ensures
        match r {
            Ok(()) => {
                &&& from.start <= from.end <= old(vec)@.len()
                &&& final(vec)@ == old(vec)@ + old(vec)@.subrange(from.start as int, from.end as int)
            },
            Err(e) => {
                &&& (from.start > from.end || from.end > old(vec)@.len())
                &&& e == (RangeError { start: from.start, end: from.end, len: old(vec)@.len() as usize })
                &&& final(vec)@ == old(vec)@
            },
        },
{
    let copy_start = from.start;
    let copy_end = from.end;
    if copy_start > copy_end || copy_end > vec.len() {
        return Err(RangeError { start: copy_start, end: copy_end, len: vec.len() });
    }
    let copy_len = copy_end - copy_start;
    vec.reserve(copy_len);
    let old_len = vec.len();
    let ghost before = vec@;
    let mut i: usize = 0;
    while i < copy_len
        invariant
            copy_start + copy_len <= old_len,
            before.len() == old_len,
            i <= copy_len,
            vec@ == before + before.subrange(copy_start as int, copy_start + i),
        decreases copy_len - i,
    {
        let b = vec[copy_start + i];
        vec.push(b);
        i = i + 1;
        proof {
            assert(vec@ =~= before + before.subrange(copy_start as int, copy_start + i));
        }
    }
    Ok(())
}

/// `#`, the even bytes of the marker line.
pub const HASH: u8 = 35;
/// `*`, the odd bytes of the marker line.
pub const STAR: u8 = 42;
/// `$`, which opens a comment.
pub const DOLLAR: u8 = 36;
/// `(`, which follows `$` in a comment opener.
pub const OPEN_PAREN: u8 = 40;
/// `\r`.
pub const CR: u8 = 13;
/// `\n`.
pub const LF: u8 = 10;

/// Length of the punctuation line that marks a chapter.
pub const MARKER_LEN: usize = 79;

/// A line terminator: `\r` or `\n`.
pub open spec fn is_eol(c: u8) -> bool {
    c == 13u8 || c == 10u8
}

/// A byte of the marker line: `#` or `*`.
pub open spec fn is_punct(c: u8) -> bool {
    c == 35u8 || c == 42u8
}

/// Byte `i` of the marker line `#*#*...#`.
pub open spec fn marker_byte(i: int) -> u8 {
    if i % 2 == 0 {
        35u8
    } else {
        42u8
    }
}

/// The marker line starts at `s` in `b`.
pub open spec fn marker_at(b: Seq<u8>, s: int) -> bool {
    &&& 0 <= s
    &&& s + 79 <= b.len()
    &&& forall|i: int| 0 <= i < 79 ==> #[trigger] b[s + i] == marker_byte(i)
}

/// A chapter header whose `$(` opens at `h` and whose marker line starts at
/// `s`: a line terminator, `$(`, one or more line terminators, the marker.
pub open spec fn header_at(b: Seq<u8>, h: int, s: int) -> bool {
    &&& 1 <= h
    &&& h + 2 < s
    &&& is_eol(b[h - 1])
    &&& b[h] == 36u8
    &&& b[h + 1] == 40u8
    &&& forall|i: int| h + 2 <= i < s ==> is_eol(#[trigger] b[i])
    &&& marker_at(b, s)
}

/// A chapter header opens at `h` in `b`.
pub open spec fn is_header(b: Seq<u8>, h: int) -> bool {
    exists|s: int| header_at(b, h, s)
}

/// The four bytes at `p` are `#*#*` or `*#*#`.
pub open spec fn hit_at(b: Seq<u8>, p: int) -> bool {
    &&& 0 <= p
    &&& p + 4 <= b.len()
    &&& is_punct(b[p])
    &&& ((b[p] == 35u8 && b[p + 1] == 42u8 && b[p + 2] == 35u8 && b[p + 3] == 42u8) || (b[p] == 42u8
        && b[p + 1] == 35u8 && b[p + 2] == 42u8 && b[p + 3] == 35u8))
}

/// Of two headers, the one that opens first has the first marker.
proof fn lemma_headers_ordered(b: Seq<u8>, h1: int, s1: int, h2: int, s2: int)
    requires
        header_at(b, h1, s1),
        header_at(b, h2, s2),
        h1 < h2,
    ensures
        s1 < s2,
{
    if s2 <= s1 {
        if h2 >= h1 + 2 {
            assert(is_eol(b[h2]));
        }
    }
}

/// Where the sampled words of a slice of `len` bytes that starts at address
/// `sptr` begin, and how many there are: the words lie at offsets
/// `offset + 4 * k` of the slice for `k < count`.
///
/// `offset` brings the first word to a multiple of four in memory; a slice
/// shorter than one word has none.
fn aligned_part(sptr: usize, len: usize) -> (r: (usize, usize))
    ensures
        len < 4 ==> r == (0usize, 0usize),
        len >= 4 ==> r.0 == (4 - sptr % 4) % 4 && r.1 == (len - r.0) / 4,
        r.0 < 4,
{
    if len < 4 {
        return (0, 0);
    }
    let low = sptr & 3;
    assert(low == sptr % 4) by (bit_vector)
        requires
            low == sptr & 3,
    ;
    let up = 4 - low;
    let offset = up & 3;
    assert(offset == up % 4) by (bit_vector)
        requires
            offset == up & 3,
    ;
    (offset, (len - offset) / 4)
}

/// Whether the four bytes at `p` are `#*#*` or `*#*#`.
fn is_hit(buffer: &[u8], p: usize) -> (r: bool)
    requires
        p + 4 <= buffer@.len(),
    ensures
        r == hit_at(buffer@, p as int),
{
    let a = buffer[p];
    let b = buffer[p + 1];
    let c = buffer[p + 2];
    let d = buffer[p + 3];
    (a == HASH && b == STAR && c == HASH && d == STAR) || (a == STAR && b == HASH && c == STAR && d
        == HASH)
}

/// A marker at or after `start` holds a hit on the sampled word `j` of the
/// slice at `start`, in its first 76 bytes.
proof fn lemma_marker_sampled(b: Seq<u8>, start: int, offset: int, count: int, s: int) -> (j: int)
    requires
        0 <= start <= s,
        0 <= offset < 4,
        marker_at(b, s),
        b.len() < start + offset + 4 * count + 4,
    ensures
        0 <= j,
        19 * j < count,
        s <= start + offset + 76 * j <= s + 75,
        hit_at(b, start + offset + 76 * j),
{
    let j = if s <= start + offset {
        0
    } else {
        (s - start - offset + 75) / 76
    };
    let q = start + offset + 76 * j;
    let d = q - s;
    assert(b[s + d] == marker_byte(d));
    assert(b[s + (d + 1)] == marker_byte(d + 1));
    assert(b[s + (d + 2)] == marker_byte(d + 2));
    assert(b[s + (d + 3)] == marker_byte(d + 3));
    j
}

/// The sampled word `k` of the words that begin at `base` is no hit.
spec fn missed(b: Seq<u8>, base: int, k: int) -> bool {
    !hit_at(b, base + 76 * k)
}

/// Looks for a hit among the sampled words of the slice at `start`, taking
/// every nineteenth word: a marker line, 79 bytes long, always holds one.
fn hunt(buffer: &[u8], start: usize) -> (r: Option<usize>)
    requires
        start <= buffer@.len(),
    ensures
        match r {
            Some(p) => {
                &&& start <= p
                &&& hit_at(buffer@, p as int)
                &&& forall|s: int| start <= s && marker_at(buffer@, s) ==> p <= s + 75
            },
            None => forall|s: int| start <= s ==> !marker_at(buffer@, s),
        },
{
    let sptr = address_of(buffer).wrapping_add(start);
    let (offset, count) = aligned_part(sptr, buffer.len() - start);
    let ghost b = buffer@;
    let n = buffer.len();
    let mut pp: usize = 0;
    let ghost mut j: int = 0;
    while pp < count
        invariant
            start <= b.len(),
            n == b.len(),
            b == buffer@,
            offset < 4,
            b.len() - start < 4 ==> count == 0,
            b.len() - start >= 4 ==> start + offset + 4 * count <= b.len() < start + offset + 4
                * count + 4,
            pp == 19 * j,
            pp <= count + 18,
            0 <= j,
            forall|k: int| 0 <= k < j ==> #[trigger] missed(b, start + offset, k),
        decreases count + 19 - pp,
    {
        let p = start + offset + pp * 4;
        if is_hit(buffer, p) {
            proof {
                assert forall|s: int| start <= s && marker_at(b, s) implies p <= s + 75 by {
                    let k = lemma_marker_sampled(b, start as int, offset as int, count as int, s);
                    if k < j {
                        assert(missed(b, start + offset, k));
                    }
                }
            }
            return Some(p);
        }
        pp = pp + 19;
        proof {
            j = j + 1;
        }
    }
    proof {
        assert forall|s: int| start <= s implies !marker_at(b, s) by {
            if marker_at(b, s) {
                let k = lemma_marker_sampled(b, start as int, offset as int, count as int, s);
                assert(missed(b, start + offset, k));
            }
        }
    }
    None
}

/// Whether the marker line starts at `at`.
fn is_marker(buffer: &[u8], at: usize) -> (r: bool)
    requires
        at + MARKER_LEN <= buffer@.len(),
    ensures
        r == marker_at(buffer@, at as int),
{
    let n = buffer.len();
    let mut i: usize = 0;
    while i < MARKER_LEN
        invariant
            n == buffer@.len(),
            at + MARKER_LEN <= buffer@.len(),
            i <= MARKER_LEN,
            forall|k: int| 0 <= k < i ==> #[trigger] buffer@[at + k] == marker_byte(k),
        decreases MARKER_LEN - i,
    {
        let expected = if i % 2 == 0 {
            HASH
        } else {
            STAR
        };
        if buffer[at + i] != expected {
            return false;
        }
        i = i + 1;
    }
    true
}

/// A chapter header opens at `h`, and its marker line starts at or before
/// `p`.
spec fn header_before(b: Seq<u8>, h: int, p: int) -> bool {
    exists|s: int| #[trigger] header_at(b, h, s) && s <= p
}

/// Checks whether the punctuation at `midp` lies on the marker line of a
/// chapter header, and returns where its `$(` opens.
fn is_real(buffer: &[u8], midp: usize) -> (r: Option<usize>)
    requires
        midp < buffer@.len(),
        is_punct(buffer@[midp as int]),
    ensures
        r.is_some() ==> header_before(buffer@, r.unwrap() as int, midp as int),
        forall|h: int, s: int|
            #[trigger] header_at(buffer@, h, s) && s <= midp < s + 79 ==> r == Some(h as usize),
{
    let ghost b = buffer@;
    // back to the start of the line
    let mut m = midp;
    while m > 0 && (buffer[m] == HASH || buffer[m] == STAR)
        invariant
            b == buffer@,
            m <= midp < b.len(),
            forall|i: int| m < i <= midp ==> is_punct(#[trigger] b[i]),
        decreases m,
    {
        m = m - 1;
    }
    proof {
        assert forall|h: int, s: int| #[trigger] header_at(b, h, s) && s <= midp < s + 79 implies m
            == s - 1 by {
            assert(b[s + (m - s)] == marker_byte(m - s) || m < s);
            assert(b[s + (midp - s)] == marker_byte(midp - s));
            if m < s - 1 {
                assert(is_punct(b[s - 1]));
                assert(is_eol(b[s - 1]));
            }
        }
    }
    if buffer[m] != CR && buffer[m] != LF {
        return None;
    }
    if buffer.len() - m < MARKER_LEN + 1 || !is_marker(buffer, m + 1) {
        return None;
    }
    let run_start = m + 1;
    // back over the line terminators
    while m > 0 && (buffer[m] == CR || buffer[m] == LF)
        invariant
            b == buffer@,
            m < run_start <= midp,
            run_start <= b.len(),
            is_eol(b[run_start - 1]),
            forall|i: int| m < i < run_start ==> is_eol(#[trigger] b[i]),
        decreases m,
    {
        m = m - 1;
    }
    proof {
        assert forall|h: int, s: int| #[trigger] header_at(b, h, s) && s <= midp < s + 79 implies m
            == h + 1 && s == run_start by {
            if m < h + 1 {
                assert(is_eol(b[h + 1]));
            }
            if m > h + 1 {
                assert(is_eol(b[m as int]));
            }
        }
    }
    if m >= 2 && buffer[m] == OPEN_PAREN && buffer[m - 1] == DOLLAR && (buffer[m - 2] == CR
        || buffer[m - 2] == LF) {
        let h = m - 1;
        proof {
            assert(header_at(buffer@, h as int, run_start as int) && run_start <= midp);
            assert(header_before(buffer@, h as int, midp as int));
        }
        Some(h)
    } else {
        None
    }
}

/// A buffer shorter than the marker line holds no chapter header.
pub proof fn law_short_buffer_has_no_header(b: Seq<u8>)
    requires
        b.len() < 79,
    ensures
        forall|h: int| !is_header(b, h),
{
    assert forall|h: int| !is_header(b, h) by {
        if is_header(b, h) {
            let s = choose|s: int| header_at(b, h, s);
            assert(marker_at(b, s));
        }
    }
}

/// Finds the first chapter header of `buffer`: a line terminator, `$(`, one
/// or more line terminators, then the 79-byte line `#*#*...#`.  Returns
/// where its `$` stands.
pub fn find_chapter_header(buffer: &[u8]) -> (r: Option<usize>)
    ensures
        match r {
            Some(h) => {
                &&& is_header(buffer@, h as int)
                &&& forall|h2: int| 0 <= h2 < h ==> !is_header(buffer@, h2)
            },
            None => forall|h: int| !is_header(buffer@, h),
        },
{
    let ghost b = buffer@;
    let n = buffer.len();
    let mut offset: usize = 0;
    loop
        invariant
            b == buffer@,
            n == b.len(),
            offset <= b.len(),
            forall|h: int, s: int| #[trigger] header_at(b, h, s) ==> offset <= s,
        decreases b.len() - offset,
    {
        match hunt(buffer, offset) {
            None => {
                proof {
                    assert forall|h: int| !is_header(b, h) by {
                        if is_header(b, h) {
                            let s = choose|s: int| header_at(b, h, s);
                            assert(marker_at(b, s));
                        }
                    }
                }
                return None;
            },
            Some(mix) => {
                match is_real(buffer, mix) {
                    Some(chap) => {
                        proof {
                            assert(header_before(b, chap as int, mix as int));
                            let s1 = choose|s: int| #[trigger] header_at(b, chap as int, s) && s <= mix;
                            assert forall|h2: int| 0 <= h2 < chap implies !is_header(b, h2) by {
                                if is_header(b, h2) {
                                    let s2 = choose|s: int| header_at(b, h2, s);
                                    lemma_headers_ordered(b, h2, s2, chap as int, s1);
                                    assert(marker_at(b, s2));
                                }
                            }
                        }
                        return Some(chap);
                    },
                    None => {
                        proof {
                            assert forall|h: int, s: int| #[trigger] header_at(b, h, s) implies mix
                                + 1 <= s by {
                                assert(marker_at(b, s));
                            }
                        }
                        offset = mix + 1;
                    },
                }
            },
        }
    }
}

} // verus!
