//! Keras-style "same" padding for strided convolutions (Basic Pitch model).
use vstd::prelude::*;

verus! {

/// Output length, and zeros before and after the input, of a "same" convolution.
#[derive(Clone, Copy, Debug, PartialEq, Eq, Structural)]
pub struct SamePadding {
    pub out_len: usize,
    pub before: usize,
    pub after: usize,
}

/// Padding of an input of `in_len` for a kernel of `kernel` taps at stride
/// `stride`: the output has `ceil(in_len / stride)` positions, and the input
/// is padded (the extra zero going after) so that the last one is covered.
pub fn same_padding(in_len: usize, kernel: usize, stride: usize) -> (p: SamePadding)
    requires
        in_len >= 1,
        stride >= 1,
        in_len + stride <= usize::MAX,
        in_len + stride + kernel <= usize::MAX,
    ensures
        (p.out_len - 1) * stride < in_len <= p.out_len * stride,
        p.before + p.after == if (p.out_len - 1) * stride + kernel >= in_len {
            (p.out_len - 1) * stride + kernel - in_len
        } else {
            0
        },
        p.before == (p.before + p.after) / 2,
{
    let out_len = (in_len + stride - 1) / stride;
    proof {
        vstd::arithmetic::div_mod::lemma_fundamental_div_mod((in_len + stride - 1) as int, stride as int);
        vstd::arithmetic::div_mod::lemma_mod_bound((in_len + stride - 1) as int, stride as int);
        assert((out_len - 1) * stride < in_len <= out_len * stride) by (nonlinear_arith)
            requires
                in_len + stride - 1 == stride * out_len + (in_len + stride - 1) % (stride as int),
                0 <= (in_len + stride - 1) % (stride as int) < stride,
                stride >= 1,
        ;
        assert(out_len >= 1) by (nonlinear_arith)
            requires
                in_len <= out_len * stride,
                in_len >= 1,
        ;
        assert((out_len - 1) * stride <= in_len + stride) by (nonlinear_arith)
            requires
                (out_len - 1) * stride < in_len,
        ;
    }
    let covered = (out_len - 1) * stride + kernel;
    let pad = if covered >= in_len { covered - in_len } else { 0 };
    SamePadding { out_len, before: pad / 2, after: pad - pad / 2 }
}

} // verus!
