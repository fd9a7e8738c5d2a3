//! The range encoder with models that the caller keeps.

use vstd::arithmetic::power2::{lemma2_to64, lemma_pow2_pos, pow2};
use vstd::prelude::*;

use crate::codecs::lzma::coder::{moderate, put_bit, stream_bytes, whole, Interval, Writer};
use crate::codecs::lzma::range::put_plain_bits;
use crate::codecs::lzma::symbols::{
    lemma_tree_fits_step, lemma_whole_tree_fits, put_reverse, put_tree, tree_fits,
};
use crate::math::{lemma_pow2_monotonic, lemma_pow2_step, power_of_two};

verus! {

/// A range encoder that writes to memory.
pub struct RangeEncoder {
    inner: crate::codecs::lzma::range::RangeEncoder,
}

impl RangeEncoder {
    /// The interval that the encoder has reached.
    pub closed spec fn interval(&self) -> Interval {
        self.inner.interval()
    }

    pub closed spec fn wf(&self) -> bool {
        self.inner.wf()
    }

    /// An encoder that has written nothing.
    pub fn new() -> (encoder: Self)
        ensures
            encoder.wf(),
            encoder.interval() == whole(),
    {
        RangeEncoder {
            inner: crate::codecs::lzma::range::RangeEncoder::with_output(Vec::new()),
        }
    }

    /// Encodes a bit under a model and adapts the model.
    pub fn encode_bit(&mut self, prob: &mut u16, bit: u32)
        requires
            old(self).wf(),
            31 <= *old(prob) <= 2017,
            bit <= 1,
        ensures
            final(self).wf(),
            31 <= *final(prob) <= 2017,
            (Writer { interval: final(self).interval(), probs: seq![*final(prob)] }) == put_bit(
                Writer { interval: old(self).interval(), probs: seq![*old(prob)] },
                0,
                bit as int,
            ),
    {
        let mut probs: Vec<u16> = vec![*prob];
        assert(probs@ =~= seq![*prob]);
        self.inner.encode_bit(&mut probs, 0, bit);
        *prob = probs[0];
        assert(probs@ =~= seq![*prob]);
    }

    /// Encodes the `num_bits` lowest bits of `value`, most significant first, without a model.
    pub fn encode_direct_bits(&mut self, value: u32, num_bits: u32)
        requires
            old(self).wf(),
            0 < num_bits <= 32,
        ensures
            final(self).wf(),
            (Writer { interval: final(self).interval(), probs: Seq::empty() }) == put_plain_bits(
                Writer { interval: old(self).interval(), probs: Seq::empty() },
                value as int,
                num_bits as nat,
            ),
    {
        self.inner.encode_direct_bits(value, num_bits, Ghost(Seq::empty()));
    }

    /// Encodes the `num_bits` lowest bits of `sym` through a tree, most significant first.
    pub fn encode_tree(&mut self, probs: &mut Vec<u16>, num_bits: u32, sym: u32)
        requires
            old(self).wf(),
            moderate(old(probs)@),
            num_bits < 32,
            pow2(num_bits as nat) <= old(probs)@.len(),
        ensures
            final(self).wf(),
            moderate(final(probs)@),
            final(probs)@.len() == old(probs)@.len(),
            (Writer { interval: final(self).interval(), probs: final(probs)@ }) == put_tree(
                Writer { interval: old(self).interval(), probs: old(probs)@ },
                0,
                num_bits as nat,
                1,
                sym as int,
            ),
    {
        let mut m: usize = 1;
        let mut left: u32 = num_bits;
        let ghost done = put_tree(
            Writer { interval: self.interval(), probs: probs@ },
            0,
            num_bits as nat,
            1,
            sym as int,
        );
        proof {
            if num_bits > 0 {
                lemma_whole_tree_fits(probs@.len(), 0, num_bits as nat);
            }
            lemma_pow2_monotonic(num_bits as nat, 31);
            lemma2_to64();
        }
        while left > 0
            invariant
                self.wf(),
                moderate(probs@),
                probs@.len() == old(probs)@.len(),
                left <= num_bits < 32,
                (m + 1) * pow2(left as nat) <= 0x1_0000_0000,
                tree_fits(probs@.len(), 0, left as nat, m as int),
                done == put_tree(
                    Writer { interval: self.interval(), probs: probs@ },
                    0,
                    left as nat,
                    m as int,
                    sym as int,
                ),
            decreases left,
        {
            let weight: u64 = power_of_two((left - 1) as usize);
            proof {
                lemma_pow2_step((left - 1) as nat);
                lemma_pow2_pos((left - 1) as nat);
                lemma_tree_fits_step(probs@.len(), 0, left as nat, m as int, 0);
                lemma_tree_fits_step(probs@.len(), 0, left as nat, m as int, 1);
                lemma_pow2_pos(left as nat);
                let q = pow2((left - 1) as nat) as int;
                assert((m + 1) * q >= m + 1) by (nonlinear_arith)
                    requires
                        q >= 1,
                ;
                assert(2 * (m + 1) <= 0x1_0000_0000) by (nonlinear_arith)
                    requires
                        (m + 1) * (2 * q) <= 0x1_0000_0000,
                        q >= 1,
                        m >= 0,
                ;
            }
            let bit: u64 = (sym as u64 / weight) % 2;
            self.inner.encode_bit(probs, m, bit as u32);
            proof {
                let q = pow2((left - 1) as nat) as int;
                assert((2 * m + bit + 1) * q <= (m + 1) * (2 * q)) by (nonlinear_arith)
                    requires
                        0 <= bit <= 1,
                        q > 0,
                ;
            }
            m = 2 * m + bit as usize;
            left -= 1;
        }
    }

    /// Encodes the `num_bits` lowest bits of `sym` through a tree, least significant first.
    pub fn encode_tree_reverse(&mut self, probs: &mut Vec<u16>, num_bits: u32, sym: u32)
        requires
            old(self).wf(),
            moderate(old(probs)@),
            num_bits < 32,
            pow2(num_bits as nat) <= old(probs)@.len(),
        ensures
            final(self).wf(),
            moderate(final(probs)@),
            final(probs)@.len() == old(probs)@.len(),
            (Writer { interval: final(self).interval(), probs: final(probs)@ }) == put_reverse(
                Writer { interval: old(self).interval(), probs: old(probs)@ },
                0,
                num_bits as nat,
                1,
                sym as int,
            ),
    {
        let mut m: usize = 1;
        let mut left: u32 = num_bits;
        let mut rest: u32 = sym;
        let ghost done = put_reverse(
            Writer { interval: self.interval(), probs: probs@ },
            0,
            num_bits as nat,
            1,
            sym as int,
        );
        proof {
            if num_bits > 0 {
                lemma_whole_tree_fits(probs@.len(), 0, num_bits as nat);
            }
            lemma_pow2_monotonic(num_bits as nat, 31);
            lemma2_to64();
        }
        while left > 0
            invariant
                self.wf(),
                moderate(probs@),
                probs@.len() == old(probs)@.len(),
                left <= num_bits < 32,
                (m + 1) * pow2(left as nat) <= 0x1_0000_0000,
                tree_fits(probs@.len(), 0, left as nat, m as int),
                done == put_reverse(
                    Writer { interval: self.interval(), probs: probs@ },
                    0,
                    left as nat,
                    m as int,
                    rest as int,
                ),
            decreases left,
        {
            proof {
                lemma_pow2_step((left - 1) as nat);
                lemma_pow2_pos((left - 1) as nat);
                lemma_tree_fits_step(probs@.len(), 0, left as nat, m as int, 0);
                lemma_tree_fits_step(probs@.len(), 0, left as nat, m as int, 1);
                let q = pow2((left - 1) as nat) as int;
                assert(2 * (m + 1) <= 0x1_0000_0000) by (nonlinear_arith)
                    requires
                        (m + 1) * (2 * q) <= 0x1_0000_0000,
                        q >= 1,
                        m >= 0,
                ;
            }
            let bit: u32 = rest % 2;
            self.inner.encode_bit(probs, m, bit);
            proof {
                let q = pow2((left - 1) as nat) as int;
                assert((2 * m + bit + 1) * q <= (m + 1) * (2 * q)) by (nonlinear_arith)
                    requires
                        0 <= bit <= 1,
                        q > 0,
                ;
            }
            m = 2 * m + bit as usize;
            rest = rest / 2;
            left -= 1;
        }
    }

    /// Writes out what is left and returns the stream.
    pub fn finish(self) -> (stream: Vec<u8>)
        requires
            self.wf(),
        ensures
            stream@ == stream_bytes(self.interval()),
    {
        self.inner.finish()
    }
}

impl Default for RangeEncoder {
    fn default() -> (encoder: Self)
        ensures
            encoder.wf(),
            encoder.interval() == whole(),
    {
        RangeEncoder::new()
    }
}

} // verus!
