//! The inverse riffle shuffle.
//!
//! A riffle shuffle cuts a deck in two and interleaves the halves; this
//! module implements its mathematical inverse, which mixes exactly as well
//! and is far friendlier to implement: each round deals every element one
//! random bit and then stably partitions the sequence by that bit.  The
//! accumulated bit histories serve as sort keys, and the engine stops as
//! soon as they are pairwise distinct — the classical stopping time of
//! Aldous and Diaconis, "Shuffling cards and stopping times" (1986).

use vstd::prelude::*;
use rand::RngCore;

verus! {

use crate::shuffler::ShuffleError;
use crate::shuffler::Shuffler;

/// Relies on rand_core::RngCore::fill_bytes: it overwrites the slice with
/// random bytes in place, so the vector keeps its length.
#[verifier::external_body]
fn fill_from_rng<R: RngCore + ?Sized>(rng: &mut R, buf: &mut Vec<u8>)
    ensures
        final(buf)@.len() == old(buf)@.len(),
{
    rng.fill_bytes(buf.as_mut_slice());
}

/// The bit at position `i` of a byte sequence, counting bits from the
/// low-order end of each byte.
pub open spec fn bit_of(bytes: Seq<u8>, i: int) -> bool {
    ((bytes[i / 8] >> ((i % 8) as u8)) & 1u8) == 1u8
}

/// An unbounded stream of single bits over a refillable byte buffer.
///
/// Bits are served from the buffer at the cursor; when the cursor reaches
/// the end, the whole buffer is refilled from the generator and the cursor
/// starts over.  Consumption is monotonic: no bit is ever skipped or
/// served twice.
pub struct InfiniteBitIter {
    pub buffer: Vec<u8>,
    pub index: usize,
}

impl InfiniteBitIter {
    /// The cursor stays within the buffer, and the buffer is non-empty and
    /// small enough that its bit count fits in `usize`.
    pub open spec fn wf(self) -> bool {
        &&& 1 <= self.buffer@.len()
        &&& self.buffer@.len() * 8 <= usize::MAX
        &&& self.index <= self.buffer@.len() * 8
    }

    /// Wraps a pre-filled byte buffer, with the cursor at its first bit.
    pub fn new(buffer: Vec<u8>) -> (it: InfiniteBitIter)
        requires
            1 <= buffer@.len(),
            buffer@.len() * 8 <= usize::MAX,
        ensures
            it.buffer@ == buffer@,
            it.index == 0,
            it.wf(),
    {
        InfiniteBitIter { buffer, index: 0 }
    }

    /// Returns the bit at the cursor and advances the cursor by one.  When
    /// the buffer is exhausted it is refilled from the generator exactly
    /// once and the bit served is the first bit of the fresh buffer.
    pub fn next_bit<R: RngCore + ?Sized>(&mut self, rng: &mut R) -> (b: bool)
        requires
            old(self).wf(),
        ensures
            final(self).wf(),
            final(self).buffer@.len() == old(self).buffer@.len(),
            old(self).index < old(self).buffer@.len() * 8 ==> (
                final(self).buffer@ == old(self).buffer@
                && final(self).index == old(self).index + 1
                && b == bit_of(old(self).buffer@, old(self).index as int)
            ),
            old(self).index == old(self).buffer@.len() * 8 ==> (
                final(self).index == 1
                && b == bit_of(final(self).buffer@, 0)
            ),
    {
        let nbits = self.buffer.len() * 8;
        if self.index == nbits {
            self.index = 0;
            fill_from_rng(rng, &mut self.buffer);
        }
        let byte = self.buffer[self.index / 8];
        let shift = (self.index % 8) as u8;
        let b = ((byte >> shift) & 1u8) == 1u8;
        self.index = self.index + 1;
        b
    }
}

/// How many rounds the engine runs before giving up on the random source.
pub const ROUND_BOUND: usize = 128;

/// How many bytes the bit stream's buffer holds between refills.
pub const BUFFER_BYTES: usize = 32;

/// How many entries of a key sequence carry a 1 in their low-order bit.
pub open spec fn count_odd(s: Seq<u64>) -> int
    decreases s.len(),
{
    if s.len() == 0 {
        0
    } else {
        count_odd(s.drop_last()) + if s.last() & 1u64 == 1u64 {
            1int
        } else {
            0int
        }
    }
}

proof fn lemma_count_odd_bounds(s: Seq<u64>)
    ensures
        0 <= count_odd(s) <= s.len(),
    decreases s.len(),
{
    if s.len() > 0 {
        lemma_count_odd_bounds(s.drop_last());
    }
}

proof fn lemma_count_odd_concat(a: Seq<u64>, b: Seq<u64>)
    ensures
        count_odd(a + b) == count_odd(a) + count_odd(b),
    decreases b.len(),
{
    if b.len() == 0 {
        assert(a + b =~= a);
    } else {
        assert((a + b).drop_last() =~= a + b.drop_last());
        assert((a + b).last() == b.last());
        lemma_count_odd_concat(a, b.drop_last());
    }
}

proof fn lemma_count_odd_push(s: Seq<u64>, x: u64)
    ensures
        count_odd(s.push(x)) == count_odd(s) + if x & 1u64 == 1u64 {
            1int
        } else {
            0int
        },
{
    assert(s.push(x).drop_last() =~= s);
    assert(s.push(x).last() == x);
}

proof fn lemma_count_odd_singleton(x: u64)
    ensures
        count_odd(seq![x]) == if x & 1u64 == 1u64 {
            1int
        } else {
            0int
        },
{
    assert(seq![x].drop_last() =~= Seq::<u64>::empty());
    assert(seq![x].last() == x);
    assert(count_odd(Seq::<u64>::empty()) == 0);
}

proof fn lemma_count_odd_split(s: Seq<u64>, i: int)
    requires
        0 <= i <= s.len(),
    ensures
        count_odd(s) == count_odd(s.subrange(0, i)) + count_odd(
            s.subrange(i, s.len() as int),
        ),
{
    assert(s =~= s.subrange(0, i) + s.subrange(i, s.len() as int));
    lemma_count_odd_concat(s.subrange(0, i), s.subrange(i, s.len() as int));
}

proof fn lemma_count_odd_suffix_step(s: Seq<u64>, i: int)
    requires
        0 <= i < s.len(),
    ensures
        count_odd(s.subrange(i, s.len() as int)) == (if s[i] & 1u64 == 1u64 {
            1int
        } else {
            0int
        }) + count_odd(s.subrange(i + 1, s.len() as int)),
{
    assert(s.subrange(i, s.len() as int) =~= seq![s[i]] + s.subrange(i + 1, s.len() as int));
    lemma_count_odd_concat(seq![s[i]], s.subrange(i + 1, s.len() as int));
    lemma_count_odd_singleton(s[i]);
}

fn zero_slots(n: usize) -> (v: Vec<u64>)
    ensures
        v@.len() == n,
        forall|i: int| 0 <= i < n ==> v@[i] == 0u64,
{
    let mut v: Vec<u64> = Vec::new();
    let mut j: usize = 0;
    while j < n
        invariant
            j <= n,
            v@.len() == j,
            forall|i: int| 0 <= i < j ==> v@[i] == 0u64,
        decreases n - j,
    {
        v.push(0u64);
        j = j + 1;
    }
    v
}

fn zero_bytes(n: usize) -> (v: Vec<u8>)
    ensures
        v@.len() == n,
{
    let mut v: Vec<u8> = Vec::new();
    let mut j: usize = 0;
    while j < n
        invariant
            j <= n,
            v@.len() == j,
        decreases n - j,
    {
        v.push(0u8);
        j = j + 1;
    }
    v
}

fn copy_elems<T: Copy>(src: &Vec<T>) -> (v: Vec<T>)
    ensures
        v@ == src@,
{
    let mut v: Vec<T> = Vec::new();
    let n = src.len();
    let mut j: usize = 0;
    while j < n
        invariant
            j <= n,
            n == src@.len(),
            v@.len() == j,
            forall|i: int| 0 <= i < j ==> v@[i] == src@[i],
        decreases n - j,
    {
        v.push(src[j]);
        j = j + 1;
    }
    proof {
        assert(v@ =~= src@);
    }
    v
}

/// The engine's per-length scratch state, reused across calls of the same
/// sequence length so that repeated shuffles allocate nothing.
#[derive(Debug, PartialEq, Eq)]
pub struct Context<T> {
    /// Working copy of the sequence: the swap target during a round.
    pub data_cp: Vec<T>,
    /// One sort key per position, accumulating one bit per round with the
    /// most recent bit in the low-order place.
    pub bit_slots: Vec<u64>,
    /// Swap target for the sort keys during a round.
    pub bit_slots_cp: Vec<u64>,
}

impl<T> Context<T> {
    /// All three buffers have exactly the length of the sequence being
    /// shuffled.
    pub open spec fn wf(self, n: nat) -> bool {
        &&& self.data_cp@.len() == n
        &&& self.bit_slots@.len() == n
        &&& self.bit_slots_cp@.len() == n
    }
}

impl<T: Copy> Context<T> {
    /// Fresh scratch state for a sequence: a copy of the data and zeroed
    /// key slots.
    pub fn new(data: &Vec<T>) -> (c: Context<T>)
        ensures
            c.wf(data@.len()),
            c.data_cp@ == data@,
            forall|i: int| 0 <= i < c.bit_slots@.len() ==> c.bit_slots@[i] == 0u64,
            forall|i: int| 0 <= i < c.bit_slots_cp@.len() ==> c.bit_slots_cp@[i] == 0u64,
    {
        Context {
            data_cp: copy_elems(data),
            bit_slots: zero_slots(data.len()),
            bit_slots_cp: zero_slots(data.len()),
        }
    }
}

/// No two adjacent entries of the sequence are equal.  On a sequence whose
/// equal values stand next to each other — in particular on a sorted one —
/// this is the same as all entries being pairwise distinct; see
/// [`lemma_sorted_adjacent_distinct`].
pub open spec fn adjacent_distinct(s: Seq<u64>) -> bool {
    forall|i: int| #![trigger s[i]] 0 <= i < s.len() - 1 ==> s[i] != s[i + 1]
}

/// Reports whether no two adjacent entries are equal.
pub fn all_distinct(sorted_data: &Vec<u64>) -> (r: bool)
    ensures
        r == adjacent_distinct(sorted_data@),
{
    let n = sorted_data.len();
    if n == 0 {
        return true;
    }
    let mut j: usize = 1;
    while j < n
        invariant
            1 <= j <= n,
            n == sorted_data@.len(),
            forall|i: int| #![trigger sorted_data@[i]]
                0 <= i < j - 1 ==> sorted_data@[i] != sorted_data@[i + 1],
        decreases n - j,
    {
        if sorted_data[j - 1] == sorted_data[j] {
            assert(sorted_data@[j - 1] == sorted_data@[j - 1 + 1]);
            return false;
        }
        j = j + 1;
    }
    true
}

/// On a sorted sequence, freedom from adjacent duplicates is the same as
/// pairwise distinctness: any two equal entries of a sorted sequence squeeze
/// everything between them to the same value, so some adjacent pair is
/// already equal.
pub proof fn lemma_sorted_adjacent_distinct(s: Seq<u64>)
    requires
        forall|i: int, j: int| 0 <= i <= j < s.len() ==> s[i] <= s[j],
    ensures
        adjacent_distinct(s) <==> (forall|i: int, j: int| 0 <= i < j < s.len() ==> s[i] != s[j]),
{
    if forall|i: int| #![trigger s[i]] 0 <= i < s.len() - 1 ==> s[i] != s[i + 1] {
        assert forall|i: int, j: int| 0 <= i < j < s.len() implies s[i] != s[j] by {
            if s[i] == s[j] {
                assert(s[i] <= s[i + 1]);
                assert(s[i + 1] <= s[j]);
                assert(s[i] != s[i + 1]);
            }
        }
    }
    if forall|i: int, j: int| 0 <= i < j < s.len() ==> s[i] != s[j] {
        assert forall|i: int| #![trigger s[i]] 0 <= i < s.len() - 1 implies s[i] != s[i + 1] by {
            assert(0 <= i < i + 1 < s.len());
        }
    }
}

/// Whether a sort key's most recent bit — its low-order bit — is 1.
pub open spec fn is_odd_key(k: u64) -> bool {
    k & 1u64 == 1u64
}

/// The entries of `ds` standing at positions whose key in `ks` has the
/// low-order bit `odd`, kept in their original relative order.
pub open spec fn selected<T>(ks: Seq<u64>, ds: Seq<T>, odd: bool) -> Seq<T>
    decreases ks.len(),
{
    if ks.len() == 0 || ds.len() == 0 {
        Seq::empty()
    } else {
        (if is_odd_key(ks[0]) == odd {
            seq![ds[0]]
        } else {
            Seq::empty()
        }) + selected(ks.drop_first(), ds.drop_first(), odd)
    }
}

proof fn lemma_selected_step<T>(ks: Seq<u64>, ds: Seq<T>, odd: bool)
    requires
        ks.len() > 0,
        ds.len() > 0,
    ensures
        selected(ks, ds, odd) == (if is_odd_key(ks[0]) == odd {
            seq![ds[0]]
        } else {
            Seq::<T>::empty()
        }) + selected(ks.drop_first(), ds.drop_first(), odd),
{
}

/// What one round does, given the keys and data before it and some
/// assignment `ks1` of one fresh bit per key: every key is shifted left
/// once with the new bit in its low-order place, and both the keys and the
/// data are then stably partitioned by that bit — positions whose new bit
/// is 0 first, in original relative order, positions whose new bit is 1
/// after them, in original relative order.
pub open spec fn round_rel<T>(
    keys0: Seq<u64>,
    data0: Seq<T>,
    ks1: Seq<u64>,
    keys2: Seq<u64>,
    data2: Seq<T>,
) -> bool {
    &&& ks1.len() == keys0.len()
    &&& (forall|i: int|
        0 <= i < ks1.len() ==> ks1[i] == (keys0[i] << 1u64) || ks1[i] == ((keys0[i] << 1u64)
            | 1u64))
    &&& keys2 == selected(ks1, ks1, false) + selected(ks1, ks1, true)
    &&& data2 == selected(ks1, data0, false) + selected(ks1, data0, true)
}

/// The key slots a shuffle starts from: one zeroed slot per element.
pub open spec fn zeroed_keys(n: nat) -> Seq<u64> {
    Seq::new(n, |i: int| 0u64)
}

/// The engine's execution relation: the keys and data are reached from
/// `keys0` and `data0` by exactly `n` rounds, each step related to the
/// previous one by [`round_rel`] under some assignment of fresh bits, and
/// every round before the last left keys that still failed the
/// distinctness test — which is exactly why the next round ran.
pub open spec fn shuffle_rounds<T>(
    keys0: Seq<u64>,
    data0: Seq<T>,
    keys: Seq<u64>,
    data: Seq<T>,
    n: nat,
) -> bool
    decreases n,
{
    if n == 0 {
        keys == keys0 && data == data0
    } else {
        exists|mid_keys: Seq<u64>, mid_data: Seq<T>, ks1: Seq<u64>|
            shuffle_rounds(keys0, data0, mid_keys, mid_data, (n - 1) as nat) && (n >= 2
                ==> !adjacent_distinct(mid_keys)) && round_rel(
                mid_keys,
                mid_data,
                ks1,
                keys,
                data,
            )
    }
}

/// One round of the inverse riffle: deal every position one fresh random
/// bit into the low end of its key, then stably partition data and keys by
/// that bit — elements whose new bit is 1 fill the tail of the scratch
/// buffers in original relative order, elements whose bit is 0 fill the
/// segment below them — and finally exchange the scratch buffers with the
/// live ones.  The data afterwards is a rearrangement of the data before:
/// the same multiset of elements.
fn one_round<T: Copy, R: RngCore + ?Sized>(
    ctx: &mut Context<T>,
    data: &mut Vec<T>,
    bits: &mut InfiniteBitIter,
    rng: &mut R,
)
    requires
        old(ctx).wf(old(data)@.len()),
        old(bits).wf(),
    ensures
        final(ctx).wf(final(data)@.len()),
        final(bits).wf(),
        final(data)@.len() == old(data)@.len(),
        final(data)@.to_multiset() == old(data)@.to_multiset(),
        old(data)@.len() <= 1 ==> final(data)@ == old(data)@,
        exists|ks1: Seq<u64>|
            round_rel(
                old(ctx).bit_slots@,
                old(data)@,
                ks1,
                final(ctx).bit_slots@,
                final(data)@,
            ),
{
    let size = data.len();

    let mut odd_count: usize = 0;
    let mut i: usize = 0;
    while i < size
        invariant
            i <= size,
            size == data@.len(),
            data@ == old(data)@,
            ctx.wf(size as nat),
            bits.wf(),
            odd_count as int == count_odd(ctx.bit_slots@.subrange(0, i as int)),
            odd_count <= i,
            forall|j: int| #![trigger ctx.bit_slots@[j]]
                0 <= j < i ==> (ctx.bit_slots@[j] == (old(ctx).bit_slots@[j] << 1u64)
                    || ctx.bit_slots@[j] == ((old(ctx).bit_slots@[j] << 1u64) | 1u64)),
            forall|j: int| #![trigger ctx.bit_slots@[j]]
                i <= j < size ==> ctx.bit_slots@[j] == old(ctx).bit_slots@[j],
        decreases size - i,
    {
        let ghost pre = ctx.bit_slots@;
        let bit = bits.next_bit(rng);
        let prev = ctx.bit_slots[i];
        let v: u64 = (prev << 1u64) | (if bit { 1u64 } else { 0u64 });
        ctx.bit_slots.set(i, v);
        proof {
            assert(ctx.bit_slots@.subrange(0, i as int) =~= pre.subrange(0, i as int));
            assert(ctx.bit_slots@.subrange(0, i as int + 1) =~= pre.subrange(0, i as int).push(v));
            lemma_count_odd_push(pre.subrange(0, i as int), v);
            lemma_count_odd_bounds(pre.subrange(0, i as int));
            assert((prev << 1u64) | 0u64 == prev << 1u64) by (bit_vector);
        }
        if v & 1u64 == 1u64 {
            odd_count = odd_count + 1;
        }
        i = i + 1;
    }

    let ghost ks = ctx.bit_slots@;
    let ghost ds = data@;
    proof {
        assert(ks.subrange(0, size as int) =~= ks);
        lemma_count_odd_bounds(ks);
        assert(ks.subrange(size as int, size as int) =~= Seq::<u64>::empty());
        assert(count_odd(Seq::<u64>::empty()) == 0);
        assert(ctx.data_cp@.subrange(size - odd_count, size - odd_count)
            + ctx.data_cp@.subrange(size as int, size as int)
            =~= ds.subrange(size as int, size as int));
        assert(ds.subrange(size as int, size as int) =~= Seq::<T>::empty());
        assert(ctx.data_cp@.subrange(size - odd_count, size - odd_count)
            =~= selected(ks.subrange(size as int, size as int),
                ds.subrange(size as int, size as int), false));
        assert(ctx.data_cp@.subrange(size as int, size as int)
            =~= selected(ks.subrange(size as int, size as int),
                ds.subrange(size as int, size as int), true));
        assert(ctx.bit_slots_cp@.subrange(size - odd_count, size - odd_count)
            =~= selected(ks.subrange(size as int, size as int),
                ks.subrange(size as int, size as int), false));
        assert(ctx.bit_slots_cp@.subrange(size as int, size as int)
            =~= selected(ks.subrange(size as int, size as int),
                ks.subrange(size as int, size as int), true));
    }

    let mut odd_moved: usize = 0;
    let mut even_moved: usize = 0;
    let mut t: usize = size;
    while t > 0
        invariant
            t <= size,
            size == data@.len(),
            data@ == ds,
            ctx.bit_slots@ == ks,
            ks.len() == size,
            ctx.wf(size as nat),
            odd_count as int == count_odd(ks),
            0 <= odd_count <= size,
            odd_moved as int == count_odd(ks.subrange(t as int, size as int)),
            odd_moved + even_moved == size - t,
            odd_moved <= odd_count,
            even_moved as int <= size - odd_count,
            (ctx.data_cp@.subrange(size - odd_count - even_moved, size - odd_count)
                + ctx.data_cp@.subrange(size - odd_moved, size as int)).to_multiset()
                == ds.subrange(t as int, size as int).to_multiset(),
            ctx.data_cp@.subrange(size - odd_count - even_moved, size - odd_count)
                == selected(ks.subrange(t as int, size as int),
                    ds.subrange(t as int, size as int), false),
            ctx.data_cp@.subrange(size - odd_moved, size as int)
                == selected(ks.subrange(t as int, size as int),
                    ds.subrange(t as int, size as int), true),
            ctx.bit_slots_cp@.subrange(size - odd_count - even_moved, size - odd_count)
                == selected(ks.subrange(t as int, size as int),
                    ks.subrange(t as int, size as int), false),
            ctx.bit_slots_cp@.subrange(size - odd_moved, size as int)
                == selected(ks.subrange(t as int, size as int),
                    ks.subrange(t as int, size as int), true),
        decreases t,
    {
        t = t - 1;
        let k = ctx.bit_slots[t];
        let x = data[t];
        let ghost cp = ctx.data_cp@;
        let ghost evens = cp.subrange(size - odd_count - even_moved, size - odd_count);
        let ghost odds = cp.subrange(size - odd_moved, size as int);
        let ghost kcp = ctx.bit_slots_cp@;
        let ghost kevens = kcp.subrange(size - odd_count - even_moved, size - odd_count);
        let ghost kodds = kcp.subrange(size - odd_moved, size as int);
        let ghost sk = ks.subrange(t as int, size as int);
        let ghost sd = ds.subrange(t as int, size as int);
        proof {
            lemma_count_odd_suffix_step(ks, t as int);
            lemma_count_odd_split(ks, t as int);
            lemma_count_odd_bounds(ks.subrange(0, t as int));
            assert(ds.subrange(t as int, size as int)
                =~= seq![ds[t as int]] + ds.subrange(t as int + 1, size as int));
            crate::perm::lemma_cons_multiset(ds[t as int], ds.subrange(t as int + 1, size as int));
            assert(sk[0] == ks[t as int]);
            assert(sd[0] == ds[t as int]);
            assert(sk.drop_first() =~= ks.subrange(t as int + 1, size as int));
            assert(sd.drop_first() =~= ds.subrange(t as int + 1, size as int));
            lemma_selected_step(sk, sd, false);
            lemma_selected_step(sk, sd, true);
            lemma_selected_step(sk, sk, false);
            lemma_selected_step(sk, sk, true);
        }
        if k & 1u64 == 1u64 {
            odd_moved = odd_moved + 1;
            let p = size - odd_moved;
            ctx.bit_slots_cp.set(p, k);
            ctx.data_cp.set(p, x);
            proof {
                assert(ctx.data_cp@.subrange(size - odd_count - even_moved, size - odd_count)
                    =~= evens);
                assert(ctx.data_cp@.subrange(p as int, size as int) =~= seq![x] + odds);
                crate::perm::lemma_prepend_right_multiset(x, evens, odds);
                assert(ctx.bit_slots_cp@.subrange(size - odd_count - even_moved, size - odd_count)
                    =~= kevens);
                assert(ctx.bit_slots_cp@.subrange(p as int, size as int) =~= seq![k] + kodds);
                assert(is_odd_key(sk[0]));
                assert(selected(sk, sd, true) == seq![x] + selected(sk.drop_first(), sd.drop_first(), true));
                assert(selected(sk, sd, false) =~= selected(sk.drop_first(), sd.drop_first(), false));
                assert(selected(sk, sk, true) == seq![k] + selected(sk.drop_first(), sk.drop_first(), true));
                assert(selected(sk, sk, false) =~= selected(sk.drop_first(), sk.drop_first(), false));
            }
        } else {
            even_moved = even_moved + 1;
            let p = size - odd_count - even_moved;
            ctx.bit_slots_cp.set(p, k);
            ctx.data_cp.set(p, x);
            proof {
                assert(ctx.data_cp@.subrange(size - odd_moved, size as int) =~= odds);
                assert(ctx.data_cp@.subrange(p as int, size - odd_count) =~= seq![x] + evens);
                crate::perm::lemma_prepend_left_multiset(x, evens, odds);
                assert(ctx.bit_slots_cp@.subrange(size - odd_moved, size as int) =~= kodds);
                assert(ctx.bit_slots_cp@.subrange(p as int, size - odd_count) =~= seq![k] + kevens);
                assert(!is_odd_key(sk[0]));
                assert(selected(sk, sd, false) == seq![x] + selected(sk.drop_first(), sd.drop_first(), false));
                assert(selected(sk, sd, true) =~= selected(sk.drop_first(), sd.drop_first(), true));
                assert(selected(sk, sk, false) == seq![k] + selected(sk.drop_first(), sk.drop_first(), false));
                assert(selected(sk, sk, true) =~= selected(sk.drop_first(), sk.drop_first(), true));
            }
        }
    }

    proof {
        assert(ks.subrange(0, size as int) =~= ks);
        assert(ds.subrange(0, size as int) =~= ds);
        assert(ctx.data_cp@ =~= ctx.data_cp@.subrange(0, size - odd_count)
            + ctx.data_cp@.subrange(size - odd_count, size as int));
        assert(ctx.data_cp@.to_multiset() == ds.to_multiset());
        assert(ctx.data_cp@ == selected(ks, ds, false) + selected(ks, ds, true));
        assert(ctx.bit_slots_cp@ =~= ctx.bit_slots_cp@.subrange(0, size - odd_count)
            + ctx.bit_slots_cp@.subrange(size - odd_count, size as int));
        assert(ctx.bit_slots_cp@ == selected(ks, ks, false) + selected(ks, ks, true));
        if size == 1 {
            crate::perm::lemma_singleton_multiset_eq(ctx.data_cp@, ds);
        }
        if size == 0 {
            assert(ctx.data_cp@ =~= ds);
        }
    }
    core::mem::swap(&mut ctx.data_cp, data);
    core::mem::swap(&mut ctx.bit_slots_cp, &mut ctx.bit_slots);
    proof {
        assert(round_rel(old(ctx).bit_slots@, old(data)@, ks, ctx.bit_slots@, data@));
    }
}

/// The inverse riffle shuffle engine.  It owns reusable scratch state: a
/// second call on a sequence of the same length allocates nothing.
#[derive(Debug, Default)]
pub struct Irs<T> {
    /// Scratch state left behind by the previous successful call, if any.
    pub context: Option<Context<T>>,
}

impl<T: Copy> Irs<T> {
    /// Hands out scratch state fit for `data`, taking it out of the engine.
    ///
    /// If the stored context already has the right buffer lengths it is
    /// reset in place — key slots zeroed, the data copy refreshed — with no
    /// new allocation; otherwise a fresh context is built.  Either way the
    /// result is indistinguishable from newly built scratch state, so reuse
    /// cannot bias a later shuffle.
    pub fn get_reset_context(&mut self, data: &Vec<T>) -> (c: Context<T>)
        ensures
            c.wf(data@.len()),
            c.data_cp@ == data@,
            forall|i: int| 0 <= i < c.bit_slots@.len() ==> c.bit_slots@[i] == 0u64,
            final(self).context is None,
    {
        let mut taken: Option<Context<T>> = None;
        core::mem::swap(&mut taken, &mut self.context);
        match taken {
            Some(mut c) => {
                let n = data.len();
                if c.data_cp.len() != n || c.bit_slots.len() != n || c.bit_slots_cp.len() != n {
                    Context::new(data)
                } else {
                    let mut j: usize = 0;
                    while j < n
                        invariant
                            j <= n,
                            n == data@.len(),
                            c.data_cp@.len() == n,
                            c.bit_slots@.len() == n,
                            c.bit_slots_cp@.len() == n,
                            forall|i: int| 0 <= i < j ==> c.data_cp@[i] == data@[i],
                            forall|i: int| 0 <= i < j ==> c.bit_slots@[i] == 0u64,
                        decreases n - j,
                    {
                        c.data_cp.set(j, data[j]);
                        c.bit_slots.set(j, 0u64);
                        j = j + 1;
                    }
                    proof {
                        assert(c.data_cp@ =~= data@);
                    }
                    c
                }
            },
            None => Context::new(data),
        }
    }
}

impl<T> Shuffler<T> for Irs<T> {
    /// Runs rounds until the keys become pairwise distinct and commits the
    /// context at the first round that passes that test; gives up with
    /// [`ShuffleError::RandomnessInadequate`] only after `ROUND_BOUND`
    /// rounds have each left keys that failed it.
    fn shuffle<R: RngCore + ?Sized>(
        &mut self,
        data: &mut Vec<T>,
        rng: &mut R,
    ) -> (r: Result<(), ShuffleError>) where T: Copy
        ensures
            r is Ok ==> (final(self).context matches Some(c)
                && c.wf(final(data)@.len())
                && adjacent_distinct(c.bit_slots@)
                && (exists|n: nat|
                    1 <= n <= ROUND_BOUND && shuffle_rounds(
                        zeroed_keys(old(data)@.len()),
                        old(data)@,
                        c.bit_slots@,
                        final(data)@,
                        n,
                    ))),
            !(r is Ok) ==> final(self).context is None,
            !(r is Ok) ==> (exists|last_keys: Seq<u64>|
                !adjacent_distinct(last_keys) && shuffle_rounds(
                    zeroed_keys(old(data)@.len()),
                    old(data)@,
                    last_keys,
                    final(data)@,
                    ROUND_BOUND as nat,
                )),
    {
        let mut context = self.get_reset_context(data);
        let mut initial_buffer = zero_bytes(BUFFER_BYTES);
        fill_from_rng(rng, &mut initial_buffer);
        let mut bits = InfiniteBitIter::new(initial_buffer);

        proof {
            assert(context.bit_slots@ =~= zeroed_keys(old(data)@.len()));
        }
        let mut round: usize = 0;
        while round < ROUND_BOUND
            invariant
                round <= ROUND_BOUND,
                context.wf(data@.len()),
                bits.wf(),
                data@.len() == old(data)@.len(),
                data@.to_multiset() == old(data)@.to_multiset(),
                old(data)@.len() <= 1 ==> data@ == old(data)@,
                round > 0 ==> data@.len() > 1,
                round > 0 ==> !adjacent_distinct(context.bit_slots@),
                self.context is None,
                shuffle_rounds(
                    zeroed_keys(old(data)@.len()),
                    old(data)@,
                    context.bit_slots@,
                    data@,
                    round as nat,
                ),
            decreases ROUND_BOUND - round,
        {
            let ghost keys_before = context.bit_slots@;
            let ghost data_before = data@;
            one_round(&mut context, data, &mut bits, rng);
            proof {
                let ks1 = choose|ks1: Seq<u64>|
                    round_rel(keys_before, data_before, ks1, context.bit_slots@, data@);
                assert(shuffle_rounds(
                    zeroed_keys(old(data)@.len()),
                    old(data)@,
                    keys_before,
                    data_before,
                    round as nat,
                ) && ((round + 1) as nat >= 2 ==> !adjacent_distinct(keys_before))
                    && round_rel(keys_before, data_before, ks1, context.bit_slots@, data@));
                assert(shuffle_rounds(
                    zeroed_keys(old(data)@.len()),
                    old(data)@,
                    context.bit_slots@,
                    data@,
                    (round + 1) as nat,
                ));
            }
            if all_distinct(&context.bit_slots) {
                proof {
                    assert(1 <= (round + 1) as nat <= ROUND_BOUND && shuffle_rounds(
                        zeroed_keys(old(data)@.len()),
                        old(data)@,
                        context.bit_slots@,
                        data@,
                        (round + 1) as nat,
                    ));
                    assert(exists|n: nat|
                        1 <= n <= ROUND_BOUND && shuffle_rounds(
                            zeroed_keys(old(data)@.len()),
                            old(data)@,
                            context.bit_slots@,
                            data@,
                            n,
                        ));
                }
                self.context = Some(context);
                return Ok(());
            }
            proof {
                assert(context.bit_slots@.len() == data@.len());
                assert(data@.len() > 1);
            }
            round = round + 1;
        }
        proof {
            assert(!adjacent_distinct(context.bit_slots@) && shuffle_rounds(
                zeroed_keys(old(data)@.len()),
                old(data)@,
                context.bit_slots@,
                data@,
                ROUND_BOUND as nat,
            ));
        }
        Err(ShuffleError::RandomnessInadequate)
    }
}

} // verus!
