//! A set of small non-negative integers, stored as bits.
//!
//! The first word of bits is held inline; indices past it live in an overflow
//! vector that is only allocated once such an index is set.  Word `k` of the
//! set (word 0 being the inline one) holds the indices `64 * k .. 64 * k + 64`.
use vstd::prelude::*;

verus! {

/// Number of indices held by one word.
pub const WORD_BITS: usize = 64;

/// Largest number of overflow words a well-formed set holds, so that every
/// index it can hold fits in a `usize`.
pub open spec fn max_tail_words() -> nat {
    (usize::MAX / 64) as nat
}

/// The larger of `a` and `b`.
pub open spec fn larger(a: nat, b: nat) -> nat {
    if a >= b {
        a
    } else {
        b
    }
}

/// Whether bit `i` of the word `w` is set.
pub open spec fn word_has(w: u64, i: nat) -> bool {
    i < 64 && (w >> (i as u64)) & 1u64 == 1u64
}

/// Whether index `i` is held by the inline word `head` followed by the
/// overflow words `words`.
pub open spec fn words_have(head: u64, words: Seq<u64>, i: nat) -> bool {
    let k = i / 64;
    if k == 0 {
        word_has(head, i % 64)
    } else {
        k - 1 < words.len() && word_has(words[k - 1], i % 64)
    }
}

proof fn lemma_word_or_bit(w: u64, b: u64)
    requires
        b < 64,
    ensures
        forall|i: nat| #[trigger] word_has(w | (1u64 << b), i) == (i == b || word_has(w, i)),
{
    assert forall|i: nat| #[trigger] word_has(w | (1u64 << b), i) == (i == b || word_has(w, i)) by {
        if i < 64 {
            let c = i as u64;
            assert(((w | (1u64 << b)) >> c) & 1u64 == 1u64 <==> (c == b || (w >> c) & 1u64
                == 1u64)) by (bit_vector)
                requires
                    b < 64,
                    c < 64,
            ;
        }
    }
}

proof fn lemma_word_or(x: u64, y: u64)
    ensures
        forall|i: nat| #[trigger] word_has(x | y, i) == (word_has(x, i) || word_has(y, i)),
{
    assert forall|i: nat| #[trigger] word_has(x | y, i) == (word_has(x, i) || word_has(y, i)) by {
        if i < 64 {
            let c = i as u64;
            assert(((x | y) >> c) & 1u64 == 1u64 <==> ((x >> c) & 1u64 == 1u64 || (y >> c) & 1u64
                == 1u64)) by (bit_vector);
        }
    }
}

proof fn lemma_word_zero()
    ensures
        forall|i: nat| !#[trigger] word_has(0u64, i),
{
    assert forall|i: nat| !#[trigger] word_has(0u64, i) by {
        if i < 64 {
            let c = i as u64;
            assert((0u64 >> c) & 1u64 != 1u64) by (bit_vector);
        }
    }
}

proof fn lemma_word_mask(w: u64, b: u64)
    requires
        b < 64,
    ensures
        (w & (1u64 << b) != 0) == word_has(w, b as nat),
{
    assert((w & (1u64 << b) != 0) == ((w >> b) & 1u64 == 1u64)) by (bit_vector)
        requires
            b < 64,
    ;
}

/// Facts on the lowest set bit of a non-zero word, and on clearing it.
proof fn lemma_lowest_bit(w: u64)
    requires
        w != 0,
    ensures
        (w.trailing_zeros() as nat) < 64,
        word_has(w, w.trailing_zeros() as nat),
        forall|i: nat| #[trigger] word_has(w, i) ==> w.trailing_zeros() <= i,
        forall|i: nat|
            #[trigger] word_has(w & vstd::prelude::sub(w, 1u64), i) == (word_has(w, i) && i != w.trailing_zeros()),
{
    broadcast use vstd::std_specs::bits::axiom_u64_trailing_zeros;

    let t = w.trailing_zeros() as u64;
    assert(t < 64);
    assert forall|i: nat| #[trigger] word_has(w, i) implies w.trailing_zeros() <= i by {
        let c = i as u64;
        if c < t {
            assert((w >> c) & 1u64 == 0u64);
        }
    }
    assert(w << vstd::prelude::sub(64u64, t) == 0u64);
    assert forall|i: nat|
        #[trigger] word_has(w & vstd::prelude::sub(w, 1u64), i) == (word_has(w, i) && i != w.trailing_zeros()) by {
        if i < 64 {
            let c = i as u64;
            assert(((w & vstd::prelude::sub(w, 1u64)) >> c) & 1u64 == 1u64 <==> (c != t && (w >> c) & 1u64
                == 1u64)) by (bit_vector)
                requires
                    w != 0,
                    t < 64,
                    c < 64,
                    (w >> t) & 1u64 == 1u64,
                    w << vstd::prelude::sub(64u64, t) == 0u64,
            ;
        }
    }
}

/// A set of indices, with one inline word and optional overflow words.
#[derive(Debug)]
pub struct Bitset {
    head: u64,
    tail: Option<Vec<u64>>,
}

impl View for Bitset {
    type V = Set<nat>;

    closed spec fn view(&self) -> Set<nat> {
        Set::new(|i: nat| self.spec_has(i))
    }
}

impl Bitset {
    /// The overflow words, empty when none are allocated.
    pub closed spec fn tail_words(&self) -> Seq<u64> {
        match self.tail {
            None => Seq::empty(),
            Some(v) => v@,
        }
    }

    /// Whether index `i` is in the set.
    pub closed spec fn spec_has(&self, i: nat) -> bool {
        words_have(self.head, self.tail_words(), i)
    }

    /// Number of overflow words.
    pub closed spec fn tail_len(&self) -> nat {
        self.tail_words().len()
    }

    /// Whether the overflow vector has been allocated.
    pub closed spec fn allocated(&self) -> bool {
        self.tail.is_some()
    }

    /// Every index the set can hold fits in a `usize`.
    pub closed spec fn wf(&self) -> bool {
        self.tail_words().len() <= max_tail_words()
    }

    /// How setting `bit` changes the overflow storage, from `self` to `next`:
    /// an index of the inline word leaves it alone; any other allocates it
    /// and grows it to the word of `bit`, if it was shorter, and never
    /// shrinks it.
    pub open spec fn grows_for(&self, next: Bitset, bit: usize) -> bool {
        &&& bit < 64 ==> next.tail_words() == self.tail_words() && next.allocated()
            == self.allocated()
        &&& bit >= 64 ==> next.allocated() && next.tail_len() == larger(
            self.tail_len(),
            bit as nat / 64,
        )
    }

    /// What merging `other` into `self` gives in `next`: the union of the
    /// indices; and, when `other` has overflow words, overflow as long as the
    /// longer of the two, with the words past those of `other` left alone;
    /// when it has none, the overflow of `self` as it was.
    pub open spec fn merges_into(&self, other: Bitset, next: Bitset) -> bool {
        &&& next@ == self@.union(other@)
        &&& self.wf() && other.wf() ==> next.wf()
        &&& other.allocated() ==> next.allocated() && next.tail_len() == larger(
            self.tail_len(),
            other.tail_len(),
        )
        &&& other.allocated() ==> forall|j: int|
            other.tail_len() <= j < self.tail_len() ==> #[trigger] next.tail_words()[j]
                == self.tail_words()[j]
        &&& !other.allocated() ==> next.tail_words() == self.tail_words() && next.allocated()
            == self.allocated()
    }

    /// Creates an empty set, without allocating.
    pub fn new() -> (r: Bitset)
        ensures
            r@ == Set::<nat>::empty(),
            r.wf(),
            !r.allocated(),
            r.tail_len() == 0,
    {
        let r = Bitset { head: 0, tail: None };
        proof {
            lemma_word_zero();
            assert(r@ =~= Set::<nat>::empty());
        }
        r
    }

    /// The overflow words, as a slice.
    fn tail(&self) -> (r: &[u64])
        ensures
            r@ == self.tail_words(),
    {
        match &self.tail {
            None => &[],
            Some(v) => v.as_slice(),
        }
    }

    /// The overflow vector, allocated empty if it was absent.
    fn tail_mut(&mut self) -> (r: &mut Vec<u64>)
        ensures
            r@ == old(self).tail_words(),
            final(self).head == old(self).head,
            final(self).tail == Some(*final(r)),
    {
        if self.tail.is_none() {
            self.tail = Some(Vec::new());
        }
        match &mut self.tail {
            Some(v) => v,
            None => vstd::pervasive::unreached(),
        }
    }

    /// Adds `bit` to the set.
    pub fn set_bit(&mut self, bit: usize)
        requires
            old(self).wf(),
        ensures
            final(self)@ == old(self)@.insert(bit as nat),
            final(self).wf(),
            old(self).grows_for(*final(self), bit),
    {
        proof {
            lemma_bit_split(bit);
        }
        if bit < WORD_BITS {
            proof {
                lemma_word_or_bit(self.head, bit as u64);
            }
            self.head = self.head | (1u64 << (bit as u64));
        } else {
            let word = bit / WORD_BITS - 1;
            let tail = self.tail_mut();
            if word >= tail.len() {
                tail.resize(word + 1, 0);
            }
            let w = tail[word];
            proof {
                lemma_word_or_bit(w, (bit % 64) as u64);
                lemma_grown_words(old(self).tail_words(), tail@, word as int);
            }
            tail[word] = w | (1u64 << ((bit & (WORD_BITS - 1)) as u64));
            proof {
                lemma_set_word(*old(self), tail@, bit, w);
            }
        }
        proof {
            assert(final(self)@ =~= old(self)@.insert(bit as nat));
        }
    }

    /// Whether `bit` is in the set.
    pub fn has_bit(&self, bit: usize) -> (r: bool)
        ensures
            r == self@.contains(bit as nat),
    {
        proof {
            lemma_bit_split(bit);
        }
        if bit < WORD_BITS {
            proof {
                lemma_word_mask(self.head, bit as u64);
            }
            (self.head & (1u64 << (bit as u64))) != 0
        } else {
            let word = bit / WORD_BITS - 1;
            let tail = self.tail();
            if word < tail.len() {
                proof {
                    lemma_word_mask(tail[word as int], (bit % 64) as u64);
                }
                (tail[word] & (1u64 << ((bit & (WORD_BITS - 1)) as u64))) != 0
            } else {
                false
            }
        }
    }

    /// Adds `bit` to the set and returns whether it was there before.
    pub fn replace_bit(&mut self, bit: usize) -> (r: bool)
        requires
            old(self).wf(),
        ensures
            r == old(self)@.contains(bit as nat),
            bit >= 64 && bit / 64 > old(self).tail_len() ==> !r,
            final(self)@ == old(self)@.insert(bit as nat),
            final(self).wf(),
            old(self).grows_for(*final(self), bit),
    {
        proof {
            lemma_bit_split(bit);
        }
        if bit < WORD_BITS {
            proof {
                lemma_word_mask(self.head, bit as u64);
                lemma_word_or_bit(self.head, bit as u64);
            }
            let old_bit = (self.head & (1u64 << (bit as u64))) != 0;
            self.head = self.head | (1u64 << (bit as u64));
            proof {
                assert(final(self)@ =~= old(self)@.insert(bit as nat));
            }
            old_bit
        } else {
            let word = bit / WORD_BITS - 1;
            let tail = self.tail_mut();
            let mask = 1u64 << ((bit & (WORD_BITS - 1)) as u64);
            let old_bit = if word >= tail.len() {
                tail.resize(word + 1, 0);
                false
            } else {
                proof {
                    lemma_word_mask(tail[word as int], (bit % 64) as u64);
                }
                (tail[word] & mask) != 0
            };
            let w = tail[word];
            proof {
                lemma_word_or_bit(w, (bit % 64) as u64);
                lemma_grown_words(old(self).tail_words(), tail@, word as int);
            }
            tail[word] = w | mask;
            proof {
                lemma_set_word(*old(self), tail@, bit, w);
            }
            proof {
                assert(final(self)@ =~= old(self)@.insert(bit as nat));
            }
            old_bit
        }
    }

    /// Adds every index of `other` to the set; `other` is left as it was.
    pub fn merge_from(&mut self, other: &Bitset)
        ensures
            old(self).merges_into(*other, *final(self)),
    {
        proof {
            lemma_word_or(self.head, other.head);
        }
        self.head = self.head | other.head;
        match &other.tail {
            None => {},
            Some(rtail) => {
                let mut stail = match self.tail.take() {
                    Some(v) => v,
                    None => Vec::new(),
                };
                if rtail.len() > stail.len() {
                    stail.resize(rtail.len(), 0);
                }
                let ghost grown = stail@;
                let mut i: usize = 0;
                while i < rtail.len()
                    invariant
                        i <= rtail.len() <= stail.len(),
                        stail.len() == grown.len(),
                        forall|j: int| 0 <= j < i ==> stail@[j] == grown[j] | rtail@[j],
                        forall|j: int| i <= j < stail.len() ==> stail@[j] == grown[j],
                    decreases rtail.len() - i,
                {
                    stail.set(i, stail[i] | rtail[i]);
                    i += 1;
                }
                self.tail = Some(stail);
                proof {
                    assert forall|j: int, b: nat| 0 <= j < rtail.len() implies #[trigger]
                        word_has(stail@[j], b) == (word_has(grown[j], b) || word_has(rtail@[j], b)) by {
                        lemma_word_or(grown[j], rtail@[j]);
                    }
                }
            },
        }
        proof {
            lemma_word_zero();
            assert(final(self)@ =~= old(self)@.union(other@));
        }
    }
}

impl Bitset {
    /// Walks the set's indices in ascending order.
    pub fn into_iter(&self) -> (r: BitsetIter<'_>)
        requires
            self.wf(),
        ensures
            r.wf(),
            r.remaining() == self@,
    {
        let r = BitsetIter { bits: self.head, offset: 0, buffer: self.tail(), pos: 0 };
        proof {
            assert(r.remaining() =~= self@);
        }
        r
    }
}

/// The indices of a [`Bitset`], from the lowest up.
pub struct BitsetIter<'a> {
    bits: u64,
    offset: usize,
    buffer: &'a [u64],
    pos: usize,
}

impl<'a> BitsetIter<'a> {
    /// Whether index `i` is still to come: `bits` holds what is left of word
    /// `pos`, and the words after it are those of `buffer` from `pos` on.
    pub closed spec fn spec_yields(&self, i: nat) -> bool {
        let k = i / 64;
        (k == self.pos && word_has(self.bits, i % 64)) || (self.pos < k && k - 1
            < self.buffer@.len() && word_has(self.buffer@[k - 1], i % 64))
    }

    /// The indices still to come.
    pub closed spec fn remaining(&self) -> Set<nat> {
        Set::new(|i: nat| self.spec_yields(i))
    }

    pub closed spec fn wf(&self) -> bool {
        &&& self.offset == self.pos * 64
        &&& self.pos <= self.buffer@.len()
        &&& self.buffer@.len() <= max_tail_words()
    }

    /// Returns the lowest index still to come, or `None` when none is left.
    pub fn next(&mut self) -> (r: Option<usize>)
        requires
            old(self).wf(),
        ensures
            final(self).wf(),
            match r {
                None => old(self).remaining() == Set::<nat>::empty() && final(self).remaining()
                    == old(self).remaining(),
                Some(x) => {
                    &&& old(self).remaining().contains(x as nat)
                    &&& forall|y: nat| #[trigger] old(self).remaining().contains(y) ==> x <= y
                    &&& final(self).remaining() == old(self).remaining().remove(x as nat)
                },
            },
    {
        let ghost start = self.remaining();
        proof {
            lemma_word_zero();
            lemma_usize_max_words();
        }
        while self.bits == 0
            invariant
                self.wf(),
                self.remaining() == start,
                start == old(self).remaining(),
            decreases self.buffer@.len() - self.pos,
        {
            if self.pos >= self.buffer.len() {
                proof {
                    lemma_word_zero();
                    assert forall|i: nat| !self.spec_yields(i) by {
                        assert(!word_has(self.bits, i % 64));
                    }
                    assert(start =~= Set::<nat>::empty());
                }
                return None;
            }
            let ghost before = *self;
            self.bits = self.buffer[self.pos];
            self.pos = self.pos + 1;
            self.offset = self.offset + WORD_BITS;
            proof {
                lemma_word_zero();
                lemma_usize_max_words();
                assert forall|i: nat| self.spec_yields(i) == before.spec_yields(i) by {
                    assert(!word_has(before.bits, i % 64));
                }
                assert(self.remaining() =~= start);
            }
        }
        proof {
            lemma_lowest_bit(self.bits);
        }
        let tz = self.bits.trailing_zeros() as usize;
        self.bits = self.bits & (self.bits - 1);
        let r = tz + self.offset;
        proof {
            assert(self.remaining() =~= start.remove(r as nat));
        }
        Some(r)
    }
}

/// Every index of a word in a well-formed set fits in a `usize`.
proof fn lemma_usize_max_words()
    ensures
        max_tail_words() * 64 + 63 <= usize::MAX,
{
    assert(usize::MAX == 0xffff_ffff || usize::MAX == 0xffff_ffff_ffff_ffff);
}

/// An index splits into its word and its position in that word.
proof fn lemma_bit_split(bit: usize)
    ensures
        bit & 63usize == bit % 64,
        bit < 64 ==> bit / 64 == 0,
        bit >= 64 ==> bit / 64 >= 1 && (bit / 64) as nat <= max_tail_words(),
{
    assert(bit & 63usize == bit % 64) by (bit_vector);
    assert(bit as int / 64 <= usize::MAX as int / 64) by (nonlinear_arith)
        requires
            bit <= usize::MAX,
    ;
}

/// A vector that `resize` grew with zero words, or left alone, holds at
/// `word` what the old one held there, or zero.
proof fn lemma_grown_words(old_words: Seq<u64>, words: Seq<u64>, word: int)
    requires
        0 <= word < words.len(),
        old_words.len() <= words.len(),
        words == old_words || words.subrange(0, old_words.len() as int) == old_words,
        forall|j: int| old_words.len() <= j < words.len() ==> #[trigger] words[j] == 0u64,
    ensures
        forall|j: int| 0 <= j < old_words.len() ==> #[trigger] words[j] == old_words[j],
        word < old_words.len() ==> words[word] == old_words[word],
        word >= old_words.len() ==> words[word] == 0u64,
{
    assert forall|j: int| 0 <= j < old_words.len() implies #[trigger] words[j] == old_words[j] by {
        assert(words.subrange(0, old_words.len() as int)[j] == words[j]);
    }
}

/// Word `j` of `words`, or zero past their end.
pub open spec fn word_or_zero(words: Seq<u64>, j: int) -> u64 {
    if 0 <= j < words.len() {
        words[j]
    } else {
        0u64
    }
}

/// Writing `w` with the bit of `bit` set into the overflow word of `bit`
/// inserts `bit` into the set, when `w` is what the set held there.
proof fn lemma_set_word(s: Bitset, words: Seq<u64>, bit: usize, w: u64)
    requires
        bit >= 64,
        words.len() > bit / 64 - 1,
        words.len() >= s.tail_words().len(),
        forall|j: int|
            0 <= j < words.len() && j != bit / 64 - 1 ==> #[trigger] words[j] == word_or_zero(
                s.tail_words(),
                j,
            ),
        w == word_or_zero(s.tail_words(), bit / 64 - 1),
        forall|i: nat| #[trigger] word_has(words[bit / 64 - 1], i) == (i == bit % 64 || word_has(w, i)),
    ensures
        forall|i: nat| #[trigger] words_have(s.head, words, i) == (s.spec_has(i) || i == bit),
{
    lemma_word_zero();
}

impl<'a> core::ops::BitOrAssign<&'a Bitset> for Bitset {
    fn bitor_assign(&mut self, rhs: &'a Bitset)
        ensures
            old(self).merges_into(*rhs, *final(self)),
    {
        self.merge_from(rhs)
    }
}

impl Clone for Bitset {
    fn clone(&self) -> (r: Bitset)
        ensures
            r@ == self@,
            r.wf() == self.wf(),
    {
        let tail = match &self.tail {
            None => None,
            Some(v) => Some(v.clone()),
        };
        let r = Bitset { head: self.head, tail };
        proof {
            assert(r.tail_words() =~= self.tail_words());
            assert(r@ =~= self@);
        }
        r
    }
}

impl Default for Bitset {
    fn default() -> (r: Bitset)
        ensures
            r@ == Set::<nat>::empty(),
            r.wf(),
    {
        Bitset::new()
    }
}

/// The indices held after adding each of `bits`, in order, to `start`.
pub open spec fn after_sets(start: Set<nat>, bits: Seq<usize>) -> Set<nat>
    decreases bits.len(),
{
    if bits.len() == 0 {
        start
    } else {
        after_sets(start, bits.drop_last()).insert(bits.last() as nat)
    }
}

/// After any sequence of `set_bit` calls on a new set, an index is in the set
/// exactly when it was one of those set.
pub proof fn law_set_then_has(bits: Seq<usize>, i: nat)
    ensures
        after_sets(Set::<nat>::empty(), bits).contains(i) <==> exists|k: int|
            0 <= k < bits.len() && bits[k] as nat == i,
    decreases bits.len(),
{
    if bits.len() > 0 {
        let rest = bits.drop_last();
        law_set_then_has(rest, i);
        if after_sets(Set::<nat>::empty(), rest).contains(i) {
            let k = choose|k: int| 0 <= k < rest.len() && rest[k] as nat == i;
            assert(bits[k] == rest[k]);
        }
        if exists|k: int| 0 <= k < bits.len() && bits[k] as nat == i {
            let k = choose|k: int| 0 <= k < bits.len() && bits[k] as nat == i;
            if k < bits.len() - 1 {
                assert(rest[k] == bits[k]);
            }
        }
    }
}

/// Merging the same set twice, with `merge_from` or `|=`, holds what
/// merging it once does.
pub proof fn law_merge_idempotent(a: Bitset, x: Bitset, once: Bitset, twice: Bitset)
    requires
        a.merges_into(x, once),
        once.merges_into(x, twice),
    ensures
        twice@ == once@,
{
    assert(twice@ =~= once@);
}

/// The order of two merges does not change the indices held.
pub proof fn law_merge_commutes(
    a: Bitset,
    x: Bitset,
    y: Bitset,
    ax: Bitset,
    axy: Bitset,
    ay: Bitset,
    ayx: Bitset,
)
    requires
        a.merges_into(x, ax),
        ax.merges_into(y, axy),
        a.merges_into(y, ay),
        ay.merges_into(x, ayx),
    ensures
        axy@ == ayx@,
        axy@ == a@.union(x@).union(y@),
{
    assert(axy@ =~= ayx@);
}

/// Merging a set that holds nothing changes nothing.
pub proof fn law_merge_empty(a: Bitset, e: Bitset, next: Bitset)
    requires
        e@ == Set::<nat>::empty(),
        a.merges_into(e, next),
    ensures
        next@ == a@,
{
    assert(next@ =~= a@);
}

} // verus!
