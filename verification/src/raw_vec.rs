use vstd::prelude::*;
use crate::borrow::{width_ok, word_bit, BitBuffer};

verus! {

/// Number of words of `w` bits needed to hold `bits` bits.
pub open spec fn words_for(bits: nat, w: nat) -> nat {
    if bits % w == 0 {
        bits / w
    } else {
        bits / w + 1
    }
}

/// Number of bits that a vector of capacity `capacity` holds after it grows:
/// one word's worth at first, then twice as many as before.
pub open spec fn next_capacity(capacity: nat, w: nat) -> nat {
    if capacity == 0 {
        w
    } else {
        2 * capacity
    }
}

/// Storage for `capacity` bits can be laid out: its words take at most
/// `isize::MAX` bytes and their bits can be counted in a `usize`.
pub open spec fn layout_ok<W: BitBuffer>(capacity: nat) -> bool {
    &&& words_for(capacity, W::width_spec()) * vstd::layout::size_of::<W>() <= isize::MAX
    &&& words_for(capacity, W::width_spec()) * W::width_spec() <= usize::MAX
}

/// The words for `bits` bits hold at least `bits` and fewer than `bits + w`
/// bits.
pub proof fn lemma_words_for(bits: nat, w: nat)
    requires
        0 < w,
    ensures
        bits <= words_for(bits, w) * w,
        words_for(bits, w) * w < bits + w,
        words_for(bits, w) <= bits,
{
    vstd::arithmetic::div_mod::lemma_fundamental_div_mod(bits as int, w as int);
    assert(bits <= words_for(bits, w) * w && words_for(bits, w) * w < bits + w) by (nonlinear_arith)
        requires
            bits == w * (bits / w) + bits % w,
            0 <= bits % w < w,
            words_for(bits, w) == if bits % w == 0 {
                bits / w
            } else {
                bits / w + 1
            },
    ;
    assert(words_for(bits, w) <= bits) by (nonlinear_arith)
        requires
            bits == w * (bits / w) + bits % w,
            0 <= bits % w < w,
            0 < w,
            words_for(bits, w) == if bits % w == 0 {
                bits / w
            } else {
                bits / w + 1
            },
    ;
}

/// Bits that fit in `k` words need at most `k` words.
pub proof fn lemma_words_for_le(bits: nat, k: nat, w: nat)
    requires
        0 < w,
        bits <= k * w,
    ensures
        words_for(bits, w) <= k,
{
    lemma_words_for(bits, w);
    assert(words_for(bits, w) <= k) by (nonlinear_arith)
        requires
            words_for(bits, w) * w < bits + w,
            bits <= k * w,
            0 < w,
    ;
}

/// Whole words need no more words than they are.
pub proof fn lemma_words_for_whole(k: nat, w: nat)
    requires
        0 < w,
    ensures
        words_for(k * w, w) == k,
{
    vstd::arithmetic::div_mod::lemma_fundamental_div_mod_converse_div((k * w) as int, w as int, k as int, 0);
    vstd::arithmetic::div_mod::lemma_fundamental_div_mod_converse_mod((k * w) as int, w as int, k as int, 0);
}

/// Number of words of `Word` needed to hold `bits` bits.
pub(crate) fn word_count<Word: BitBuffer>(bits: usize) -> (r: usize)
    requires
        width_ok::<Word>(),
    ensures
        r == words_for(bits as nat, Word::width_spec()),
{
    let w = Word::width();
    proof {
        lemma_words_for(bits as nat, w as nat);
    }
    if bits % w == 0 {
        bits / w
    } else {
        bits / w + 1
    }
}

/// The words of a binary vector, with room for `capacity` bits counted
/// from the first bit of the first word.
pub(crate) struct RawBinaryVec<Word: BitBuffer> {
    pub capacity: usize,
    pub data: Vec<Word>,
}

impl<Word: BitBuffer> RawBinaryVec<Word> {
    /// The storage holds at least the words that `capacity` bits need.
    pub(crate) open spec fn wf(&self) -> bool {
        &&& width_ok::<Word>()
        &&& words_for(self.capacity as nat, Word::width_spec()) <= self.data@.len()
        &&& self.data@.len() * Word::width_spec() <= usize::MAX
    }

    /// The words have room for the capacity.
    pub(crate) proof fn lemma_room(&self)
        requires
            self.wf(),
        ensures
            self.capacity <= self.data@.len() * Word::width_spec(),
    {
        let w = Word::width_spec();
        let k = words_for(self.capacity as nat, w);
        lemma_words_for(self.capacity as nat, w);
        assert(self.capacity <= self.data@.len() * w) by (nonlinear_arith)
            requires
                self.capacity <= k * w,
                k <= self.data@.len(),
        ;
    }

    /// Storage for `capacity` bits made of the given words.
    pub(crate) fn from_raw_parts(capacity: usize, data: Vec<Word>) -> (r: Self)
        requires
            width_ok::<Word>(),
            words_for(capacity as nat, Word::width_spec()) <= data@.len(),
            data@.len() * Word::width_spec() <= usize::MAX,
        ensures
            r.wf(),
            r.capacity == capacity,
            r.data@ == data@,
    {
        RawBinaryVec { capacity, data }
    }

    /// The number of words that `capacity` bits need, or `None` when they
    /// would take more than `isize::MAX` bytes or their bits could not be
    /// counted in a `usize`.
    pub(crate) fn layout(capacity: usize) -> (r: Option<usize>)
        requires
            width_ok::<Word>(),
        ensures
            r is Some <==> layout_ok::<Word>(capacity as nat),
            r matches Some(n) ==> n == words_for(capacity as nat, Word::width_spec()),
    {
        let words = word_count::<Word>(capacity);
        let size = core::mem::size_of::<Word>();
        let w = Word::width();
        match words.checked_mul(size) {
            Some(bytes) => {
                if bytes > isize::MAX as usize {
                    return None;
                }
            },
            None => {
                return None;
            },
        }
        match words.checked_mul(w) {
            Some(_) => Some(words),
            None => None,
        }
    }

    /// Grows the storage to its next capacity, keeping every bit it held;
    /// the words added are clear.
    pub(crate) fn grow(&mut self)
        requires
            old(self).wf(),
            next_capacity(old(self).capacity as nat, Word::width_spec()) <= usize::MAX,
            layout_ok::<Word>(next_capacity(old(self).capacity as nat, Word::width_spec())),
        ensures
            final(self).wf(),
            final(self).capacity == next_capacity(old(self).capacity as nat, Word::width_spec()),
            final(self).data@.len() >= old(self).data@.len(),
            final(self).data@.subrange(0, old(self).data@.len() as int) == old(self).data@,
            forall|p: int|
                old(self).data@.len() * Word::width_spec() <= p < final(self).data@.len()
                    * Word::width_spec() ==> !#[trigger] word_bit(final(self).data@, p),
    {
        let w = Word::width();
        let new_cap = if self.capacity == 0 {
            w
        } else {
            2 * self.capacity
        };
        let words = match Self::layout(new_cap) {
            Some(n) => n,
            None => {
                return;
            },
        };
        let ghost old_data = self.data@;
        proof {
            assert(old_data.len() * w <= usize::MAX);
            assert(words * w <= usize::MAX);
        }
        while self.data.len() < words
            invariant
                width_ok::<Word>(),
                w == Word::width_spec(),
                words * w <= usize::MAX,
                old_data.len() * w <= usize::MAX,
                old_data.len() <= self.data@.len(),
                self.data@.len() <= words || self.data@.len() == old_data.len(),
                self.data@.subrange(0, old_data.len() as int) == old_data,
                forall|p: int|
                    old_data.len() * w <= p < self.data@.len() * w ==> !#[trigger] word_bit(
                        self.data@,
                        p,
                    ),
            decreases words - self.data@.len(),
        {
            let ghost before = self.data@;
            let z = Word::zero();
            self.data.push(z);
            proof {
                assert(self.data@.len() * w == before.len() * w + w) by (nonlinear_arith)
                    requires
                        self.data@.len() == before.len() + 1,
                ;
                assert forall|p: int| old_data.len() * w <= p < self.data@.len() * w implies !#[trigger] word_bit(
                    self.data@,
                    p,
                ) by {
                    crate::borrow::lemma_push_word(before, z, p);
                    if p >= before.len() * w {
                        assert(!z.bit_at(p - before.len() * w));
                    }
                }
                assert(self.data@.subrange(0, old_data.len() as int) =~= old_data);
            }
        }
        proof {
            assert(self.data@.len() * w <= usize::MAX) by (nonlinear_arith)
                requires
                    self.data@.len() <= words || self.data@.len() == old_data.len(),
                    words * w <= usize::MAX,
                    old_data.len() * w <= usize::MAX,
                    w > 0,
            ;
        }
        self.capacity = new_cap;
    }
}

} // verus!
