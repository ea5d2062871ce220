use vstd::prelude::*;

verus! {

/// Bit `j` (`j < 64`) of a 64-bit word.
pub open spec fn word_bit(w: u64, j: nat) -> bool {
    (w >> (j as u64)) & 1u64 == 1u64
}

/// Whether bit `b` is set in a sequence of 64-bit words (bit `b` lives in
/// word `b / 64` at position `b % 64`; bits past the end are clear).
pub open spec fn words_bit(words: Seq<u64>, b: nat) -> bool {
    &&& b / 64 < words.len()
    &&& word_bit(words[(b / 64) as int], b % 64)
}

/// Number of set bits among the low `n` bits of `w`.
pub open spec fn popcount_upto(w: u64, n: nat) -> nat
    decreases n,
{
    if n == 0 {
        0
    } else {
        popcount_upto(w, (n - 1) as nat) + if word_bit(w, (n - 1) as nat) {
            1nat
        } else {
            0nat
        }
    }
}

/// Number of set bits of `w`.
pub open spec fn popcount(w: u64) -> nat {
    popcount_upto(w, 64)
}

/// Total number of set bits in the first `n` words.
pub open spec fn words_popcount(words: Seq<u64>, n: int) -> nat
    decreases n,
{
    if n <= 0 {
        0
    } else {
        words_popcount(words, n - 1) + popcount(words[n - 1])
    }
}

proof fn lemma_or_bit(w: u64, k: u64, j: u64)
    by (bit_vector)
    requires
        k < 64,
        j < 64,
    ensures
        ((w | (1u64 << k)) >> j) & 1u64 == if j == k {
            1u64
        } else {
            (w >> j) & 1u64
        },
{
}

proof fn lemma_andnot_bit(w: u64, k: u64, j: u64)
    by (bit_vector)
    requires
        k < 64,
        j < 64,
    ensures
        ((w & !(1u64 << k)) >> j) & 1u64 == if j == k {
            0u64
        } else {
            (w >> j) & 1u64
        },
{
}

proof fn lemma_and_mask_bit(w: u64, k: u64)
    by (bit_vector)
    requires
        k < 64,
    ensures
        ((w & (1u64 << k)) != 0u64) == ((w >> k) & 1u64 == 1u64),
{
}

proof fn lemma_bit_is_01(w: u64, j: u64)
    by (bit_vector)
    ensures
        (w >> j) & 1u64 == 0u64 || (w >> j) & 1u64 == 1u64,
{
}

proof fn lemma_all_bits_clear(x: u64)
    by (bit_vector)
    requires
        (x >> 0u64) & 1u64 == 0u64,
        (x >> 1u64) & 1u64 == 0u64,
        (x >> 2u64) & 1u64 == 0u64,
        (x >> 3u64) & 1u64 == 0u64,
        (x >> 4u64) & 1u64 == 0u64,
        (x >> 5u64) & 1u64 == 0u64,
        (x >> 6u64) & 1u64 == 0u64,
        (x >> 7u64) & 1u64 == 0u64,
        (x >> 8u64) & 1u64 == 0u64,
        (x >> 9u64) & 1u64 == 0u64,
        (x >> 10u64) & 1u64 == 0u64,
        (x >> 11u64) & 1u64 == 0u64,
        (x >> 12u64) & 1u64 == 0u64,
        (x >> 13u64) & 1u64 == 0u64,
        (x >> 14u64) & 1u64 == 0u64,
        (x >> 15u64) & 1u64 == 0u64,
        (x >> 16u64) & 1u64 == 0u64,
        (x >> 17u64) & 1u64 == 0u64,
        (x >> 18u64) & 1u64 == 0u64,
        (x >> 19u64) & 1u64 == 0u64,
        (x >> 20u64) & 1u64 == 0u64,
        (x >> 21u64) & 1u64 == 0u64,
        (x >> 22u64) & 1u64 == 0u64,
        (x >> 23u64) & 1u64 == 0u64,
        (x >> 24u64) & 1u64 == 0u64,
        (x >> 25u64) & 1u64 == 0u64,
        (x >> 26u64) & 1u64 == 0u64,
        (x >> 27u64) & 1u64 == 0u64,
        (x >> 28u64) & 1u64 == 0u64,
        (x >> 29u64) & 1u64 == 0u64,
        (x >> 30u64) & 1u64 == 0u64,
        (x >> 31u64) & 1u64 == 0u64,
        (x >> 32u64) & 1u64 == 0u64,
        (x >> 33u64) & 1u64 == 0u64,
        (x >> 34u64) & 1u64 == 0u64,
        (x >> 35u64) & 1u64 == 0u64,
        (x >> 36u64) & 1u64 == 0u64,
        (x >> 37u64) & 1u64 == 0u64,
        (x >> 38u64) & 1u64 == 0u64,
        (x >> 39u64) & 1u64 == 0u64,
        (x >> 40u64) & 1u64 == 0u64,
        (x >> 41u64) & 1u64 == 0u64,
        (x >> 42u64) & 1u64 == 0u64,
        (x >> 43u64) & 1u64 == 0u64,
        (x >> 44u64) & 1u64 == 0u64,
        (x >> 45u64) & 1u64 == 0u64,
        (x >> 46u64) & 1u64 == 0u64,
        (x >> 47u64) & 1u64 == 0u64,
        (x >> 48u64) & 1u64 == 0u64,
        (x >> 49u64) & 1u64 == 0u64,
        (x >> 50u64) & 1u64 == 0u64,
        (x >> 51u64) & 1u64 == 0u64,
        (x >> 52u64) & 1u64 == 0u64,
        (x >> 53u64) & 1u64 == 0u64,
        (x >> 54u64) & 1u64 == 0u64,
        (x >> 55u64) & 1u64 == 0u64,
        (x >> 56u64) & 1u64 == 0u64,
        (x >> 57u64) & 1u64 == 0u64,
        (x >> 58u64) & 1u64 == 0u64,
        (x >> 59u64) & 1u64 == 0u64,
        (x >> 60u64) & 1u64 == 0u64,
        (x >> 61u64) & 1u64 == 0u64,
        (x >> 62u64) & 1u64 == 0u64,
        (x >> 63u64) & 1u64 == 0u64,
    ensures
        x == 0u64,
{
}

/// A word is zero exactly when none of its 64 bits is set.
proof fn lemma_zero_iff_no_bits(x: u64)
    ensures
        x == 0u64 <==> forall|j: u64| j < 64 ==> #[trigger] ((x >> j) & 1u64) == 0u64,
{
    assert(forall|j: u64| j < 64 ==> #[trigger] ((0u64 >> j) & 1u64) == 0u64) by (bit_vector);
    if forall|j: u64| j < 64 ==> #[trigger] ((x >> j) & 1u64) == 0u64 {
            assert((x >> 0u64) & 1u64 == 0u64);
            assert((x >> 1u64) & 1u64 == 0u64);
            assert((x >> 2u64) & 1u64 == 0u64);
            assert((x >> 3u64) & 1u64 == 0u64);
            assert((x >> 4u64) & 1u64 == 0u64);
            assert((x >> 5u64) & 1u64 == 0u64);
            assert((x >> 6u64) & 1u64 == 0u64);
            assert((x >> 7u64) & 1u64 == 0u64);
            assert((x >> 8u64) & 1u64 == 0u64);
            assert((x >> 9u64) & 1u64 == 0u64);
            assert((x >> 10u64) & 1u64 == 0u64);
            assert((x >> 11u64) & 1u64 == 0u64);
            assert((x >> 12u64) & 1u64 == 0u64);
            assert((x >> 13u64) & 1u64 == 0u64);
            assert((x >> 14u64) & 1u64 == 0u64);
            assert((x >> 15u64) & 1u64 == 0u64);
            assert((x >> 16u64) & 1u64 == 0u64);
            assert((x >> 17u64) & 1u64 == 0u64);
            assert((x >> 18u64) & 1u64 == 0u64);
            assert((x >> 19u64) & 1u64 == 0u64);
            assert((x >> 20u64) & 1u64 == 0u64);
            assert((x >> 21u64) & 1u64 == 0u64);
            assert((x >> 22u64) & 1u64 == 0u64);
            assert((x >> 23u64) & 1u64 == 0u64);
            assert((x >> 24u64) & 1u64 == 0u64);
            assert((x >> 25u64) & 1u64 == 0u64);
            assert((x >> 26u64) & 1u64 == 0u64);
            assert((x >> 27u64) & 1u64 == 0u64);
            assert((x >> 28u64) & 1u64 == 0u64);
            assert((x >> 29u64) & 1u64 == 0u64);
            assert((x >> 30u64) & 1u64 == 0u64);
            assert((x >> 31u64) & 1u64 == 0u64);
            assert((x >> 32u64) & 1u64 == 0u64);
            assert((x >> 33u64) & 1u64 == 0u64);
            assert((x >> 34u64) & 1u64 == 0u64);
            assert((x >> 35u64) & 1u64 == 0u64);
            assert((x >> 36u64) & 1u64 == 0u64);
            assert((x >> 37u64) & 1u64 == 0u64);
            assert((x >> 38u64) & 1u64 == 0u64);
            assert((x >> 39u64) & 1u64 == 0u64);
            assert((x >> 40u64) & 1u64 == 0u64);
            assert((x >> 41u64) & 1u64 == 0u64);
            assert((x >> 42u64) & 1u64 == 0u64);
            assert((x >> 43u64) & 1u64 == 0u64);
            assert((x >> 44u64) & 1u64 == 0u64);
            assert((x >> 45u64) & 1u64 == 0u64);
            assert((x >> 46u64) & 1u64 == 0u64);
            assert((x >> 47u64) & 1u64 == 0u64);
            assert((x >> 48u64) & 1u64 == 0u64);
            assert((x >> 49u64) & 1u64 == 0u64);
            assert((x >> 50u64) & 1u64 == 0u64);
            assert((x >> 51u64) & 1u64 == 0u64);
            assert((x >> 52u64) & 1u64 == 0u64);
            assert((x >> 53u64) & 1u64 == 0u64);
            assert((x >> 54u64) & 1u64 == 0u64);
            assert((x >> 55u64) & 1u64 == 0u64);
            assert((x >> 56u64) & 1u64 == 0u64);
            assert((x >> 57u64) & 1u64 == 0u64);
            assert((x >> 58u64) & 1u64 == 0u64);
            assert((x >> 59u64) & 1u64 == 0u64);
            assert((x >> 60u64) & 1u64 == 0u64);
            assert((x >> 61u64) & 1u64 == 0u64);
            assert((x >> 62u64) & 1u64 == 0u64);
            assert((x >> 63u64) & 1u64 == 0u64);
        lemma_all_bits_clear(x);
    }
}

proof fn lemma_subset_word(c: u64, q: u64)
    by (bit_vector)
    ensures
        (c & q) == q <==> (q & !c) == 0u64,
        forall|j: u64| j < 64 ==> #[trigger] (((q & !c) >> j) & 1u64) == if ((q >> j) & 1u64)
            == 1u64 && ((c >> j) & 1u64) == 0u64 {
            1u64
        } else {
            0u64
        },
{
}

proof fn lemma_and_word(a: u64, b: u64)
    by (bit_vector)
    ensures
        forall|j: u64| j < 64 ==> #[trigger] (((a & b) >> j) & 1u64) == if ((a >> j) & 1u64)
            == 1u64 && ((b >> j) & 1u64) == 1u64 {
            1u64
        } else {
            0u64
        },
{
}

proof fn lemma_xor_word(a: u64, b: u64)
    by (bit_vector)
    ensures
        (a == b) <==> (a ^ b) == 0u64,
        forall|j: u64| j < 64 ==> #[trigger] (((a ^ b) >> j) & 1u64) == if ((a >> j) & 1u64)
            == ((b >> j) & 1u64) {
            0u64
        } else {
            1u64
        },
{
}

proof fn lemma_popcount_step(w: u64, j: u64)
    requires
        j < 64,
    ensures
        popcount_upto(w, (j + 1) as nat) == popcount_upto(w, j as nat) + if (w >> j) & 1u64
            == 1u64 {
            1nat
        } else {
            0nat
        },
{
}

proof fn lemma_popcount_upto_bound(w: u64, n: nat)
    ensures
        popcount_upto(w, n) <= n,
    decreases n,
{
    if n > 0 {
        lemma_popcount_upto_bound(w, (n - 1) as nat);
    }
}

/// Growable bitset for component masks: bit `b` is stored in word `b / 64`.
#[derive(Clone, Debug)]
pub struct ComponentMask {
    words: Vec<u64>,
}

impl View for ComponentMask {
    type V = Set<nat>;

    /// The set of bit positions that are set.
    closed spec fn view(&self) -> Set<nat> {
        Set::new(|b: nat| words_bit(self.words@, b))
    }
}

impl Default for ComponentMask {
    fn default() -> (r: Self)
        ensures
            r@ == Set::<nat>::empty(),
    {
        let r = ComponentMask { words: Vec::new() };
        assert(r@ =~= Set::<nat>::empty());
        r
    }
}

impl ComponentMask {
    /// An empty mask.
    pub fn new() -> (r: Self)
        ensures
            r@ == Set::<nat>::empty(),
    {
        Self::default()
    }

    /// Grow the word vector (with zero words) until word `bit / 64` exists.
    fn ensure(&mut self, bit: usize)
        ensures
            final(self)@ == old(self)@,
            bit as nat / 64 < final(self).words@.len(),
            final(self).words@.len() >= old(self).words@.len(),
    {
        let index = bit / 64;
        while self.words.len() <= index
            invariant
                self@ == old(self)@,
                self.words@.len() >= old(self).words@.len(),
            decreases index + 1 - self.words.len(),
        {
            let ghost before = self.words@;
            self.words.push(0u64);
            proof {
                assert(word_bit(0u64, 0nat) == false) by (bit_vector);
                assert forall|b: nat| words_bit(self.words@, b) == words_bit(before, b) by {
                    if b / 64 == before.len() {
                        let j = (b % 64) as u64;
                        assert(((0u64 >> j) & 1u64) == 0u64) by (bit_vector);
                    }
                }
                assert(self@ =~= old(self)@);
            }
        }
    }

    /// Set bit `bit`.
    pub fn set(&mut self, bit: usize)
        ensures
            final(self)@ == old(self)@.insert(bit as nat),
    {
        self.ensure(bit);
        let i = bit / 64;
        let k = (bit % 64) as u64;
        let w = self.words[i];
        let ghost before = self.words@;
        self.words.set(i, w | (1u64 << k));
        proof {
            let ghost mid = Set::new(|b: nat| words_bit(before, b));
            assert(mid == old(self)@);
            assert forall|b: nat| #![auto] self@.contains(b) == mid.insert(bit as nat).contains(b)
                by {
                if b / 64 == i as nat {
                    lemma_or_bit(w, k, (b % 64) as u64);
                }
            }
            assert(self@ =~= old(self)@.insert(bit as nat));
        }
    }

    /// Clear bit `bit` (no-op if it lies past the stored words).
    pub fn clear(&mut self, bit: usize)
        ensures
            final(self)@ == old(self)@.remove(bit as nat),
    {
        if bit / 64 < self.words.len() {
            let i = bit / 64;
            let k = (bit % 64) as u64;
            let w = self.words[i];
            let ghost before = self.words@;
            self.words.set(i, w & !(1u64 << k));
            proof {
                assert forall|b: nat|
                    words_bit(self.words@, b) == (words_bit(before, b) && b != bit) by {
                    if b / 64 == i as nat {
                        lemma_andnot_bit(w, k, (b % 64) as u64);
                    }
                }
                assert(self@ =~= old(self)@.remove(bit as nat));
            }
        } else {
            assert(self@ =~= old(self)@.remove(bit as nat));
        }
    }

    /// Whether bit `bit` is set.
    pub fn contains(&self, bit: usize) -> (r: bool)
        ensures
            r == self@.contains(bit as nat),
    {
        let i = bit / 64;
        if i < self.words.len() {
            let k = (bit % 64) as u64;
            proof {
                lemma_and_mask_bit(self.words@[i as int], k);
            }
            (self.words[i] & (1u64 << k)) != 0
        } else {
            false
        }
    }

    /// Returns true if `self` has all bits set in `query`.
    pub fn matches(&self, query: &ComponentMask) -> (r: bool)
        ensures
            r == query@.subset_of(self@),
    {
        let n = query.words.len();
        let mut i: usize = 0;
        while i < n
            invariant
                n == query.words@.len(),
                i <= n,
                forall|b: nat| b / 64 < i && #[trigger] query@.contains(b) ==> self@.contains(b),
            decreases n - i,
        {
            let current = if i < self.words.len() {
                self.words[i]
            } else {
                0u64
            };
            let q = query.words[i];
            proof {
                lemma_subset_word(current, q);
                lemma_zero_iff_no_bits(q & !current);
            }
            if (current & q) != q {
                proof {
                    let j = choose|j: u64| j < 64 && #[trigger] (((q & !current) >> j) & 1u64) != 0u64;
                    let b: nat = (i as nat) * 64 + j as nat;
                    assert(b / 64 == i as nat && b % 64 == j as nat);
                    assert(query@.contains(b));
                    if i < self.words.len() {
                        lemma_bit_is_01(current, j);
                        assert(!self@.contains(b));
                    } else {
                        assert(!self@.contains(b));
                    }
                }
                return false;
            }
            proof {
                assert forall|b: nat| b / 64 < i + 1 && #[trigger] query@.contains(b) implies self@.contains(b) by {
                    if b / 64 == i as nat {
                        let j = (b % 64) as u64;
                        assert((((q & !current) >> j) & 1u64) == 0u64);
                        if i >= self.words.len() {
                            assert(((0u64 >> j) & 1u64) == 0u64) by (bit_vector);
                        }
                        lemma_bit_is_01(current, j);
                    }
                }
            }
            i = i + 1;
        }
        proof {
            assert forall|b: nat| #[trigger] query@.contains(b) implies self@.contains(b) by {}
        }
        true
    }

    /// Returns true if `self` and `other` share no bits.
    pub fn is_disjoint(&self, other: &ComponentMask) -> (r: bool)
        ensures
            r == self@.disjoint(other@),
    {
        let min_len = if self.words.len() < other.words.len() {
            self.words.len()
        } else {
            other.words.len()
        };
        let mut i: usize = 0;
        while i < min_len
            invariant
                min_len <= self.words@.len(),
                min_len <= other.words@.len(),
                min_len == self.words@.len() || min_len == other.words@.len(),
                i <= min_len,
                forall|b: nat| b / 64 < i ==> !(#[trigger] self@.contains(b) && other@.contains(b)),
            decreases min_len - i,
        {
            let a = self.words[i];
            let c = other.words[i];
            proof {
                lemma_and_word(a, c);
                lemma_zero_iff_no_bits(a & c);
            }
            if (a & c) != 0 {
                proof {
                    let j = choose|j: u64| j < 64 && #[trigger] (((a & c) >> j) & 1u64) != 0u64;
                    let b: nat = (i as nat) * 64 + j as nat;
                    assert(b / 64 == i as nat && b % 64 == j as nat);
                    lemma_bit_is_01(a, j);
                    lemma_bit_is_01(c, j);
                    assert(self@.contains(b) && other@.contains(b));
                }
                return false;
            }
            proof {
                assert forall|b: nat| b / 64 < i + 1 implies !(#[trigger] self@.contains(b) && other@.contains(b)) by {
                    if b / 64 == i as nat {
                        let j = (b % 64) as u64;
                        assert((((a & c) >> j) & 1u64) == 0u64);
                        lemma_bit_is_01(a, j);
                        lemma_bit_is_01(c, j);
                    }
                }
            }
            i = i + 1;
        }
        proof {
            assert forall|b: nat| !(#[trigger] self@.contains(b) && other@.contains(b)) by {}
            assert(self@.disjoint(other@));
        }
        true
    }

    /// Whether no bit is set.
    pub fn is_empty(&self) -> (r: bool)
        ensures
            r == (self@ == Set::<nat>::empty()),
    {
        let n = self.words.len();
        let mut i: usize = 0;
        while i < n
            invariant
                n == self.words@.len(),
                i <= n,
                forall|b: nat| b / 64 < i ==> !#[trigger] self@.contains(b),
            decreases n - i,
        {
            let w = self.words[i];
            proof {
                lemma_zero_iff_no_bits(w);
            }
            if w != 0 {
                proof {
                    let j = choose|j: u64| j < 64 && #[trigger] ((w >> j) & 1u64) != 0u64;
                    let b: nat = (i as nat) * 64 + j as nat;
                    assert(b / 64 == i as nat && b % 64 == j as nat);
                    lemma_bit_is_01(w, j);
                    assert(self@.contains(b));
                    assert(self@ != Set::<nat>::empty());
                }
                return false;
            }
            proof {
                assert forall|b: nat| b / 64 < i + 1 implies !#[trigger] self@.contains(b) by {
                    if b / 64 == i as nat {
                        assert(((w >> ((b % 64) as u64)) & 1u64) == 0u64);
                    }
                }
            }
            i = i + 1;
        }
        proof {
            assert(self@ =~= Set::<nat>::empty());
        }
        true
    }

    /// Total number of set bits; the total must fit in a `u32`.
    pub fn count_ones(&self) -> (r: u32)
        requires
            self@.len() <= u32::MAX,
        ensures
            self@.finite(),
            r == self@.len(),
    {
        proof {
            lemma_view_len(self.words@);
        }
        let n = self.words.len();
        let mut total: u32 = 0;
        let mut i: usize = 0;
        while i < n
            invariant
                n == self.words@.len(),
                i <= n,
                total == words_popcount(self.words@, i as int),
                words_popcount(self.words@, n as int) <= u32::MAX,
            decreases n - i,
        {
            let w = self.words[i];
            let c = word_count_ones(w);
            proof {
                lemma_words_popcount_mono(self.words@, i as int + 1, n as int);
            }
            total = total + c;
            i = i + 1;
        }
        total
    }
}

/// Set bits below `limit`.
spec fn bits_below(words: Seq<u64>, limit: nat) -> Set<nat> {
    Set::new(|b: nat| b < limit && words_bit(words, b))
}

/// Number of set bits below `limit`.
spec fn bits_count(words: Seq<u64>, limit: nat) -> nat
    decreases limit,
{
    if limit == 0 {
        0
    } else {
        bits_count(words, (limit - 1) as nat) + if words_bit(words, (limit - 1) as nat) {
            1nat
        } else {
            0nat
        }
    }
}

proof fn lemma_bits_below_len(words: Seq<u64>, limit: nat)
    ensures
        bits_below(words, limit).finite(),
        bits_below(words, limit).len() == bits_count(words, limit),
    decreases limit,
{
    if limit == 0 {
        assert(bits_below(words, 0) =~= Set::<nat>::empty());
    } else {
        let l1 = (limit - 1) as nat;
        lemma_bits_below_len(words, l1);
        let prev = bits_below(words, l1);
        if words_bit(words, l1) {
            assert(bits_below(words, limit) =~= prev.insert(l1));
        } else {
            assert(bits_below(words, limit) =~= prev);
        }
    }
}

proof fn lemma_bits_count_words(words: Seq<u64>, n: nat, j: nat)
    requires
        n < words.len(),
        j <= 64,
    ensures
        bits_count(words, 64 * n + j) == words_popcount(words, n as int) + popcount_upto(words[n as int], j),
    decreases n, j,
{
    if j == 0 {
        if n > 0 {
            lemma_bits_count_words(words, (n - 1) as nat, 64);
            assert(64 * ((n - 1) as nat) + 64 == 64 * n);
        }
    } else {
        lemma_bits_count_words(words, n, (j - 1) as nat);
        let b: nat = (64 * n + j - 1) as nat;
        assert(b / 64 == n && b % 64 == j - 1) by (nonlinear_arith)
            requires
                b == 64 * n + j - 1,
                1 <= j <= 64,
        ;
    }
}

/// The number of set bits is the sum of the words' popcounts.
proof fn lemma_view_len(words: Seq<u64>)
    ensures
        Set::new(|b: nat| words_bit(words, b)).finite(),
        Set::new(|b: nat| words_bit(words, b)).len() == words_popcount(words, words.len() as int),
{
    let n = words.len();
    lemma_bits_below_len(words, 64 * n);
    assert(Set::new(|b: nat| words_bit(words, b)) =~= bits_below(words, 64 * n)) by {
        assert forall|b: nat| #[trigger] words_bit(words, b) ==> b < 64 * n by {
            if b / 64 < n {
                assert(b < 64 * n) by (nonlinear_arith)
                    requires
                        b / 64 < n,
                ;
            }
        }
    }
    if n > 0 {
        lemma_bits_count_words(words, (n - 1) as nat, 64);
        assert(64 * ((n - 1) as nat) + 64 == 64 * n);
    }
}

proof fn lemma_words_popcount_mono(words: Seq<u64>, i: int, n: int)
    requires
        i <= n,
    ensures
        words_popcount(words, i) <= words_popcount(words, n),
    decreases n - i,
{
    if i < n {
        lemma_words_popcount_mono(words, i, n - 1);
    }
}

/// Number of set bits of one word.
fn word_count_ones(w: u64) -> (r: u32)
    ensures
        r == popcount(w),
{
    let mut c: u32 = 0;
    let mut j: u64 = 0;
    while j < 64
        invariant
            j <= 64,
            c == popcount_upto(w, j as nat),
            c <= j,
        decreases 64 - j,
    {
        proof {
            lemma_popcount_step(w, j);
            lemma_bit_is_01(w, j);
        }
        if (w >> j) & 1u64 == 1u64 {
            c = c + 1;
        }
        j = j + 1;
    }
    c
}

impl PartialEq for ComponentMask {
    fn eq(&self, other: &Self) -> (r: bool) {
        let max_len = if self.words.len() > other.words.len() {
            self.words.len()
        } else {
            other.words.len()
        };
        let mut i: usize = 0;
        while i < max_len
            invariant
                max_len >= self.words@.len(),
                max_len >= other.words@.len(),
                i <= max_len,
                forall|b: nat| b / 64 < i ==> (#[trigger] self@.contains(b) == other@.contains(b)),
            decreases max_len - i,
        {
            let a = if i < self.words.len() {
                self.words[i]
            } else {
                0u64
            };
            let c = if i < other.words.len() {
                other.words[i]
            } else {
                0u64
            };
            proof {
                lemma_xor_word(a, c);
                lemma_zero_iff_no_bits(a ^ c);
                assert(forall|j: u64| j < 64 ==> #[trigger] ((0u64 >> j) & 1u64) == 0u64) by (bit_vector);
            }
            if a != c {
                proof {
                    let j = choose|j: u64| j < 64 && #[trigger] (((a ^ c) >> j) & 1u64) != 0u64;
                    let b: nat = (i as nat) * 64 + j as nat;
                    assert(b / 64 == i as nat && b % 64 == j as nat);
                    lemma_bit_is_01(a, j);
                    lemma_bit_is_01(c, j);
                    assert(((0u64 >> j) & 1u64) == 0u64);
                    assert(self@.contains(b) != other@.contains(b));
                    assert(self@ != other@);
                }
                return false;
            }
            i = i + 1;
        }
        proof {
            assert forall|b: nat| self@.contains(b) == other@.contains(b) by {}
            assert(self@ =~= other@);
        }
        true
    }
}

impl vstd::std_specs::cmp::PartialEqSpecImpl for ComponentMask {
    open spec fn obeys_eq_spec() -> bool {
        true
    }

    open spec fn eq_spec(&self, other: &ComponentMask) -> bool {
        self@ == other@
    }
}

impl Eq for ComponentMask {}

} // verus!
