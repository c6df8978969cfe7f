//! Byte offset to line/column conversion, backed by a per-buffer index of
//! newline counts taken every 256 bytes.
use vstd::prelude::*;

use crate::util::address_of;
use crate::util::new_map;
use crate::util::IndexMap;
use crate::util::LF;
use vstd::arithmetic::div_mod::lemma_fundamental_div_mod;
use vstd::arithmetic::div_mod::lemma_fundamental_div_mod_converse;

verus! {

/// Bytes per page of the index.
pub const PAGE: usize = 256;

/// Number of `\n` bytes in `s`.
pub open spec fn newlines(s: Seq<u8>) -> nat
    decreases s.len(),
{
    if s.len() == 0 {
        0
    } else {
        newlines(s.drop_last()) + if s.last() == LF {
            1nat
        } else {
            0nat
        }
    }
}

/// Number of `\n` bytes before offset `o` of `b`: the 0-based line of `o`.
pub open spec fn lines_before(b: Seq<u8>, o: int) -> nat {
    newlines(b.take(o))
}

/// `p` is where 0-based line `line` of `b` starts: `line` newlines stand
/// before it, the last of them just before it.
pub open spec fn line_start_at(b: Seq<u8>, p: int, line: nat) -> bool {
    &&& 0 <= p <= b.len()
    &&& lines_before(b, p) == line
    &&& (p == 0 || b[p - 1] == LF)
}

/// `e` is where the line that runs on from `from` ends: the next `\n` at or
/// after `from`, or the end of `b`.
pub open spec fn line_end_at(b: Seq<u8>, from: int, e: int) -> bool {
    &&& (from <= e || e == b.len())
    &&& e <= b.len()
    &&& (e == b.len() || b[e] == LF)
    &&& forall|i: int| from <= i < e ==> b[i] != LF
}

/// `idx` holds, for each whole page of `b` and the start, the number of
/// newlines before it.
pub open spec fn is_index_of(b: Seq<u8>, idx: Seq<u32>) -> bool {
    &&& idx.len() == b.len() / 256 + 1
    &&& forall|k: int| 0 <= k < idx.len() ==> #[trigger] idx[k] == lines_before(b, k * 256)
}

/// Largest buffer the index can count in `u32`.
pub open spec fn fits_index(b: Seq<u8>) -> bool {
    b.len() < u32::MAX - 1
}

/// One byte more adds one newline if it is one.
pub proof fn lemma_lines_step(b: Seq<u8>, o: int)
    requires
        0 <= o < b.len(),
    ensures
        lines_before(b, o + 1) == lines_before(b, o) + if b[o] == LF {
            1nat
        } else {
            0nat
        },
{
    assert(b.take(o + 1).drop_last() =~= b.take(o));
}

/// More bytes hold at least as many newlines, and no more than bytes.
pub proof fn lemma_lines_mono(b: Seq<u8>, i: int, j: int)
    requires
        0 <= i <= j <= b.len(),
    ensures
        lines_before(b, i) <= lines_before(b, j),
        lines_before(b, j) - lines_before(b, i) <= j - i,
    decreases j - i,
{
    if i < j {
        lemma_lines_mono(b, i, j - 1);
        lemma_lines_step(b, j - 1);
    }
}

/// Builds the index of `buf`: the running count of newlines at the start and
/// after each whole page.
fn make_index(buf: &[u8]) -> (r: Vec<u32>)
    requires
        fits_index(buf@),
    ensures
        is_index_of(buf@, r@),
{
    let ghost b = buf@;
    let len = buf.len();
    let mut out: Vec<u32> = Vec::with_capacity(len / PAGE + 1);
    out.push(0);
    proof {
        assert(b.take(0) =~= Seq::<u8>::empty());
    }
    let mut count: u32 = 0;
    let mut pos: usize = 0;
    while len - pos >= PAGE
        invariant
            b == buf@,
            len == b.len(),
            fits_index(b),
            pos <= len,
            out@.len() >= 1,
            pos == (out@.len() - 1) * 256,
            count == lines_before(b, pos as int),
            forall|k: int| 0 <= k < out@.len() ==> #[trigger] out@[k] == lines_before(b, k * 256),
        decreases len - pos,
    {
        // count each half page in a byte-wide accumulator, which 128 bytes
        // cannot overflow
        let mut half: usize = 0;
        while half < 2
            invariant
                b == buf@,
                len == b.len(),
                fits_index(b),
                pos + 256 <= len,
                half <= 2,
                count == lines_before(b, pos + 128 * half),
            decreases 2 - half,
        {
            let base = pos + half * 128;
            let mut inner: i8 = 0;
            let mut i: usize = 0;
            while i < 128
                invariant
                    b == buf@,
                    len == b.len(),
                    base + 128 <= len,
                    i <= 128,
                    -(i as int) <= inner <= 0,
                    -inner == lines_before(b, base + i) - lines_before(b, base as int),
                decreases 128 - i,
            {
                proof {
                    lemma_lines_step(b, base + i);
                }
                if buf[base + i] == LF {
                    inner = inner - 1;
                }
                i = i + 1;
            }
            proof {
                lemma_lines_mono(b, 0, base + 128);
            }
            count = count + (0i16 - inner as i16) as u32;
            half = half + 1;
        }
        pos = pos + PAGE;
        out.push(count);
    }
    out
}

/// Finds where 0-based line `line` of `buf` starts, from `index`, the index
/// of `src`.
///
/// The line must exist in `buf` when `index` is the index of `buf`.  When
/// `src` is not `buf` the result is only some offset of `buf`.
fn line_to_offset(buf: &[u8], index: &[u32], line: u32, Ghost(src): Ghost<Seq<u8>>) -> (r: usize)
    requires
        is_index_of(src, index@),
        src.len() == buf@.len(),
        src == buf@ ==> line <= lines_before(buf@, buf@.len() as int),
    ensures
        r <= buf@.len(),
        src == buf@ ==> line_start_at(
            buf@,
            r as int,
            line as nat,
        ),
{
    let ghost b = buf@;
    let ghost exact = src == b;
    let len = buf.len();
    // the first page whose count reaches the line
    let mut lo: usize = 0;
    let mut hi: usize = index.len();
    while lo < hi
        invariant
            b == buf@,
            is_index_of(src, index@),
            src.len() == b.len(),
            lo <= hi <= index@.len(),
            forall|k: int| 0 <= k < lo ==> #[trigger] index@[k] < line,
            forall|k: int| hi <= k < index@.len() ==> #[trigger] index@[k] >= line,
        decreases hi - lo,
    {
        let mid = lo + (hi - lo) / 2;
        if index[mid] < line {
            proof {
                assert forall|k: int| 0 <= k <= mid implies #[trigger] index@[k] < line by {
                    lemma_lines_mono(src, k * 256, mid * 256);
                }
            }
            lo = mid + 1;
        } else {
            proof {
                assert forall|k: int| mid <= k < index@.len() implies #[trigger] index@[k]
                    >= line by {
                    lemma_lines_mono(src, mid * 256, k * 256);
                }
            }
            hi = mid;
        }
    }
    let page = lo;
    if page == 0 {
        proof {
            assert(index@[0] == lines_before(src, 0));
            assert(src.take(0) =~= Seq::<u8>::empty());
            assert(b.take(0) =~= Seq::<u8>::empty());
        }
        return 0;
    }
    // the page before it starts on an earlier line: walk to the line
    let mut at_lineno = index[page - 1];
    let mut at_pos = (page - 1) * PAGE;
    assert(index@[page - 1] == lines_before(src, (page - 1) * 256));
    while at_lineno < line
        invariant
            b == buf@,
            len == b.len(),
            at_pos <= len,
            at_lineno <= line,
            exact == (src == b),
            exact ==> line <= lines_before(b, len as int),
            exact ==> at_lineno == lines_before(b, at_pos as int),
            at_lineno == line ==> at_pos > 0 && b[at_pos - 1] == LF,
        decreases len - at_pos,
    {
        // only an index of other bytes can run past the end
        if at_pos >= len {
            proof {
                assert(!exact);
            }
            return len;
        }
        proof {
            lemma_lines_step(b, at_pos as int);
        }
        if buf[at_pos] == LF {
            at_lineno = at_lineno + 1;
        }
        at_pos = at_pos + 1;
    }
    at_pos
}

/// The index stored under `k`, if any.
///
/// Relies on `HashMap::get`, which finds the value stored under an equal key.
#[verifier::external_body]
fn index_get<'a>(m: &'a IndexMap, k: &(usize, usize)) -> (r: Option<&'a Vec<u32>>)
    ensures
        match r {
            Some(v) => m@.contains_key(*k) && *v == m@[*k],
            None => !m@.contains_key(*k),
        },
{
    m.get(k)
}

/// Stores `v` under `k`.
///
/// Relies on `HashMap::insert`, which replaces what was stored under an equal
/// key.
#[verifier::external_body]
fn index_insert(m: &mut IndexMap, k: (usize, usize), v: Vec<u32>)
    ensures
        final(m)@ == old(m)@.insert(k, v),
{
    m.insert(k, v);
}

/// Repeated offset to line conversions on buffers, with the index of each
/// buffer built once.
///
/// A buffer is known by its address and length.  The cache is meant to live
/// shorter than the buffers it is asked about: were a buffer freed and another
/// of the same length put at its address, the index of the first would be
/// used for the second.
pub struct LineCache {
    map: IndexMap,
    /// The bytes each stored index was built from.
    sources: Ghost<Map<(usize, usize), Seq<u8>>>,
}

impl LineCache {
    /// The bytes of each buffer the cache holds an index for.
    pub closed spec fn cached(&self) -> Map<(usize, usize), Seq<u8>> {
        self.sources@
    }

    /// Each stored index is the index of the bytes it was built from.
    pub closed spec fn wf(&self) -> bool {
        &&& forall|k: (usize, usize)| #[trigger]
            self.map@.contains_key(k) == self.sources@.contains_key(k)
        &&& forall|k: (usize, usize)| #[trigger]
            self.sources@.contains_key(k) ==> {
                &&& k.1 == self.sources@[k].len()
                &&& is_index_of(self.sources@[k], self.map@[k]@)
            }
    }

    /// The cache holds no index built from other bytes of the length of `b`,
    /// so that whatever it holds under the key of `b` was built from `b`.
    pub open spec fn serves(&self, b: Seq<u8>) -> bool {
        forall|k: (usize, usize)| #[trigger]
            self.cached().contains_key(k) && k.1 == b.len() ==> self.cached()[k] == b
    }

    /// What the cache held stays, and what it gained was built from `b`.
    pub open spec fn grows_by(&self, next: LineCache, b: Seq<u8>) -> bool {
        &&& forall|k: (usize, usize)| #[trigger]
            self.cached().contains_key(k) ==> next.cached().contains_key(k) && next.cached()[k]
                == self.cached()[k]
        &&& forall|k: (usize, usize)| #[trigger]
            next.cached().contains_key(k) && !self.cached().contains_key(k) ==> next.cached()[k]
                == b
    }

    /// Makes sure the index of `buf` is stored, and returns its key.
    ///
    /// An index already stored under the key is used as it is; otherwise the
    /// index of `buf` is built and stored.
    fn index_for(&mut self, buf: &[u8]) -> (key: (usize, usize))
        requires
            old(self).wf(),
            fits_index(buf@),
        ensures
            final(self).wf(),
            old(self).grows_by(*final(self), buf@),
            final(self).map@.contains_key(key),
            key.1 == buf@.len(),
            old(self).map@.contains_key(key) ==> final(self).map@ == old(self).map@
                && final(self).cached() == old(self).cached(),
            !old(self).map@.contains_key(key) ==> final(self).map@ == old(self).map@.insert(
                key,
                final(self).map@[key],
            ) && is_index_of(buf@, final(self).map@[key]@) && final(self).cached() == old(
                self,
            ).cached().insert(key, buf@),
            old(self).serves(buf@) ==> final(self).serves(buf@) && final(self).cached()[key]
                == buf@,
    {
        let key = (address_of(buf), buf.len());
        let found = match index_get(&self.map, &key) {
            Some(_) => true,
            None => false,
        };
        if !found {
            let index = make_index(buf);
            index_insert(&mut self.map, key, index);
            proof {
                self.sources@ = self.sources@.insert(key, buf@);
            }
        }
        proof {
            assert(self.map@.contains_key(key));
            assert(self.sources@.contains_key(key));
            assert(self.cached().contains_key(key) && key.1 == buf@.len());
            if old(self).serves(buf@) {
                assert(self.sources@[key] == buf@);
                assert forall|k: (usize, usize)| #[trigger]
                    self.cached().contains_key(k) && k.1 == buf@.len() implies self.cached()[k]
                    == buf@ by {
                    if k != key {
                        assert(old(self).cached().contains_key(k));
                    }
                }
            }
        }
        key
    }

    /// Maps 1-based line `line` of `buf` to the offset where it starts.
    ///
    /// The result is exact when the cache holds no index of other bytes of the
    /// length of `buf`; otherwise it is some offset of `buf`.
    pub fn to_offset(&mut self, buf: &[u8], line: u32) -> (r: usize)
        requires
            old(self).wf(),
            fits_index(buf@),
            1 <= line <= lines_before(buf@, buf@.len() as int) + 1,
        ensures
            r <= buf@.len(),
            old(self).serves(buf@) ==> line_start_at(buf@, r as int, (line - 1) as nat),
            old(self).serves(buf@) ==> final(self).serves(buf@),
            final(self).wf(),
            old(self).grows_by(*final(self), buf@),
    {
        let key = self.index_for(buf);
        let ghost src = self.sources@[key];
        match index_get(&self.map, &key) {
            Some(index) => line_to_offset(buf, index.as_slice(), line - 1, Ghost(src)),
            None => vstd::pervasive::unreached(),
        }
    }

    /// Maps offset `offset` of `buf` to its 1-based line and column.
    ///
    /// The result is exact when the cache holds no index of other bytes of the
    /// length of `buf`; otherwise it is some line and column.
    pub fn from_offset(&mut self, buf: &[u8], offset: usize) -> (r: (u32, u32))
        requires
            old(self).wf(),
            fits_index(buf@),
            offset <= buf@.len(),
        ensures
            old(self).serves(buf@) ==> r.0 == lines_before(buf@, offset as int) + 1,
            r.1 >= 1,
            old(self).serves(buf@) ==> line_start_at(
                buf@,
                offset - (r.1 - 1),
                lines_before(buf@, offset as int),
            ),
            old(self).serves(buf@) ==> final(self).serves(buf@),
            final(self).wf(),
            old(self).grows_by(*final(self), buf@),
    {
        let ghost b = buf@;
        let key = self.index_for(buf);
        let ghost src = self.sources@[key];
        let ghost exact = old(self).serves(buf@);
        let index = match index_get(&self.map, &key) {
            Some(index) => index,
            None => vstd::pervasive::unreached(),
        };
        // start from the count at the page of the offset
        let page_start = offset / PAGE * PAGE;
        let mut lineno = index[offset / PAGE];
        assert(index@[(offset / 256) as int] == lines_before(src, (offset / 256) * 256));
        proof {
            lemma_lines_mono(src, 0, page_start as int);
            assert(src.take(0) =~= Seq::<u8>::empty());
        }
        let mut pos = page_start;
        while pos < offset
            invariant
                b == buf@,
                fits_index(b),
                page_start <= pos <= offset <= b.len(),
                lineno <= pos,
                exact ==> src == b,
                src == b ==> lineno == lines_before(b, pos as int),
            decreases offset - pos,
        {
            proof {
                lemma_lines_step(b, pos as int);
            }
            if buf[pos] == LF {
                lineno = lineno + 1;
            }
            pos = pos + 1;
        }
        proof {
            lemma_lines_mono(b, offset as int, b.len() as int);
            lemma_lines_mono(b, 0, offset as int);
        }
        // then the column, from the start of that line
        let start = line_to_offset(buf, index.as_slice(), lineno, Ghost(src));
        proof {
            if exact && start > offset {
                lemma_lines_step(b, start - 1);
                lemma_lines_mono(b, offset as int, start - 1);
            }
        }
        let colno = if start <= offset {
            offset - start
        } else {
            0
        };
        (lineno + 1, colno as u32 + 1)
    }

    /// The offset of the next `\n` at or after `offset`, or the length of
    /// `buf` if none follows.
    pub fn line_end(buf: &[u8], offset: usize) -> (r: usize)
        ensures
            line_end_at(buf@, offset as int, r as int),
    {
        let len = buf.len();
        let mut pos = offset;
        while pos < len
            invariant
                len == buf@.len(),
                offset <= pos,
                forall|i: int| offset <= i < pos ==> buf@[i] != LF,
            decreases len - pos,
        {
            if buf[pos] == LF {
                return pos;
            }
            pos = pos + 1;
        }
        len
    }
}

impl Default for LineCache {
    fn default() -> (r: LineCache)
        ensures
            r.wf(),
            r.cached() == Map::<(usize, usize), Seq<u8>>::empty(),
    {
        LineCache { map: new_map(), sources: Ghost(Map::empty()) }
    }
}

/// The line that `from_offset` gives for `o` starts at or before `o`, and
/// the end that `line_end` finds from that start is at or after `o`; strictly
/// after, unless `o` is the end of the buffer or a newline.
pub proof fn law_line_round_trip(b: Seq<u8>, o: int, start: int, end: int)
    requires
        0 <= o <= b.len(),
        line_start_at(b, start, lines_before(b, o)),
        line_end_at(b, start, end),
    ensures
        start <= o <= end,
        o < b.len() && b[o] != LF ==> o < end,
{
    if start > o {
        lemma_lines_step(b, start - 1);
        lemma_lines_mono(b, o, start - 1);
    }
    if end < o {
        lemma_lines_step(b, end);
        lemma_lines_mono(b, start, end);
        lemma_lines_mono(b, end + 1, o);
    }
}

/// A line has one start.
pub proof fn lemma_line_start_unique(b: Seq<u8>, p: int, q: int, line: nat)
    requires
        line_start_at(b, p, line),
        line_start_at(b, q, line),
    ensures
        p == q,
{
    if p < q {
        lemma_lines_step(b, q - 1);
        lemma_lines_mono(b, p, q - 1);
    } else if q < p {
        lemma_lines_step(b, p - 1);
        lemma_lines_mono(b, q, p - 1);
    }
}

/// `b` is made of lines of `n` bytes, each ended by a newline: a byte is a
/// newline exactly at the end of each run of `n + 1`.
pub open spec fn fixed_width_lines(b: Seq<u8>, n: int) -> bool {
    &&& n >= 0
    &&& forall|i: int| 0 <= i < b.len() ==> (#[trigger] b[i] == LF) == (i % (n + 1) == n)
}

proof fn lemma_div_step(k: int, m: int)
    requires
        k >= 0,
        m > 0,
    ensures
        k % m == m - 1 ==> (k + 1) / m == k / m + 1 && (k + 1) % m == 0,
        k % m != m - 1 ==> (k + 1) / m == k / m && (k + 1) % m == k % m + 1,
{
    lemma_fundamental_div_mod(k, m);
    assert(0 <= k % m < m);
    assert((k / m + 1) * m == m * (k / m) + m) by (nonlinear_arith);
    assert((k / m) * m == m * (k / m)) by (nonlinear_arith);
    if k % m == m - 1 {
        lemma_fundamental_div_mod_converse(k + 1, m, k / m + 1, 0);
    } else {
        lemma_fundamental_div_mod_converse(k + 1, m, k / m, k % m + 1);
    }
}

proof fn lemma_fixed_lines_before(b: Seq<u8>, n: int, k: int)
    requires
        fixed_width_lines(b, n),
        0 <= k <= b.len(),
    ensures
        lines_before(b, k) == k / (n + 1),
    decreases k,
{
    if k == 0 {
        assert(b.take(0) =~= Seq::<u8>::empty());
    } else {
        lemma_fixed_lines_before(b, n, k - 1);
        lemma_lines_step(b, k - 1);
        lemma_div_step(k - 1, n + 1);
    }
}

/// In a buffer of lines of `n` bytes, each ended by a newline, the line and
/// column that `from_offset` gives for offset `k` are `1 + k / (n + 1)` and
/// `1 + k % (n + 1)`.
pub proof fn law_fixed_width_position(b: Seq<u8>, n: int, k: int, line: int, col: int)
    requires
        fixed_width_lines(b, n),
        0 <= k <= b.len(),
        line == lines_before(b, k) + 1,
        col >= 1,
        line_start_at(b, k - (col - 1), lines_before(b, k)),
    ensures
        line == 1 + k / (n + 1),
        col == 1 + k % (n + 1),
{
    let m = n + 1;
    let q = k / m;
    let s0 = k - k % m;
    lemma_fixed_lines_before(b, n, k);
    lemma_fundamental_div_mod(k, m);
    assert(0 <= k % m < m);
    assert(s0 == q * m) by (nonlinear_arith)
        requires
            s0 == k - k % m,
            k == m * q + k % m,
    ;
    lemma_fundamental_div_mod_converse(s0, m, q, 0);
    lemma_fixed_lines_before(b, n, s0);
    if s0 > 0 {
        assert(q >= 1) by (nonlinear_arith)
            requires
                s0 == q * m,
                s0 > 0,
                m > 0,
        ;
        assert(s0 - 1 == (q - 1) * m + n) by (nonlinear_arith)
            requires
                s0 == q * m,
                m == n + 1,
        ;
        lemma_fundamental_div_mod_converse(s0 - 1, m, q - 1, n);
        assert(b[s0 - 1] == LF);
    }
    assert(line_start_at(b, s0, lines_before(b, k)));
    lemma_line_start_unique(b, k - (col - 1), s0, lines_before(b, k));
}

/// The start that `to_offset` gives for the line that `from_offset` gives
/// for `o` lies `col - 1` bytes before `o`.
pub proof fn law_to_offset_inverts_from_offset(b: Seq<u8>, o: int, line: int, col: int, start: int)
    requires
        0 <= o <= b.len(),
        line == lines_before(b, o) + 1,
        col >= 1,
        line_start_at(b, o - (col - 1), lines_before(b, o)),
        line_start_at(b, start, (line - 1) as nat),
    ensures
        start <= o,
        o - start + 1 == col,
{
    lemma_line_start_unique(b, start, o - (col - 1), lines_before(b, o));
}

} // verus!
