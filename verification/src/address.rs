//! Flat layout of a network's weight buffer.
//!
//! A topology is an ordered sequence of positive layer widths, at least two
//! long; entry zero is the input width. Every computed layer `l >= 1` owns one
//! weight per incoming connection plus one bias weight per neuron, laid out
//! layer by layer, within a layer neuron by neuron, and within a neuron input
//! by input with the bias last. The functions here are the single source of
//! truth for that layout: [`weight_offset`] maps an address to its flat
//! index, and the lemmas show the map is a bijection between valid addresses
//! and buffer positions.

use vstd::prelude::*;

verus! {

/// A valid topology: at least two layers, no layer of width zero.
pub open spec fn layers_ok(ls: Seq<usize>) -> bool {
    ls.len() >= 2 && (forall|i: int| 0 <= i < ls.len() ==> ls[i] > 0)
}

/// Weights owned by each neuron of layer `l`: one per neuron of the previous
/// layer, plus the bias.
pub open spec fn stride(ls: Seq<usize>, l: int) -> int {
    ls[l - 1] + 1
}

/// Flat index where the weight block of layer `l` begins, for `l` in
/// `1 ..= ls.len()`: the sum of the block sizes of all earlier computed
/// layers.
pub open spec fn layer_offset(ls: Seq<usize>, l: int) -> int
    decreases l,
{
    if l <= 1 {
        0
    } else {
        layer_offset(ls, l - 1) + ls[l - 1] * stride(ls, l - 1)
    }
}

/// Total number of weights of the topology:
/// the sum of `ls[i] * (ls[i-1] + 1)` over all computed layers `i`.
pub open spec fn weight_count(ls: Seq<usize>) -> int {
    layer_offset(ls, ls.len() as int)
}

/// A valid weight address: a computed layer, a neuron of that layer, and an
/// input position of that neuron, where input index `ls[layer-1]` addresses
/// the bias.
pub open spec fn valid_address(ls: Seq<usize>, layer: int, neuron: int, input: int) -> bool {
    &&& 1 <= layer < ls.len()
    &&& 0 <= neuron < ls[layer]
    &&& 0 <= input < stride(ls, layer)
}

/// Flat index of the weight at a valid address.
pub open spec fn weight_offset(ls: Seq<usize>, layer: int, neuron: int, input: int) -> int {
    layer_offset(ls, layer) + neuron * stride(ls, layer) + input
}

/// Layer starts never decrease: `layer_offset(a) <= layer_offset(b)` for
/// `a <= b`.
pub proof fn lemma_layer_offset_mono(ls: Seq<usize>, a: int, b: int)
    requires
        a <= b <= ls.len(),
    ensures
        layer_offset(ls, a) <= layer_offset(ls, b),
    decreases b,
{
    if a < b {
        if b >= 2 {
            assert(ls[b - 1] * stride(ls, b - 1) >= 0) by (nonlinear_arith)
                requires ls[b - 1] >= 0, stride(ls, b - 1) >= 1;
            lemma_layer_offset_mono(ls, a, b - 1);
        }
    }
}

/// Every valid address lands strictly inside the weight buffer.
pub proof fn lemma_offset_in_bounds(ls: Seq<usize>, layer: int, neuron: int, input: int)
    requires
        layers_ok(ls),
        valid_address(ls, layer, neuron, input),
    ensures
        0 <= weight_offset(ls, layer, neuron, input) < weight_count(ls),
{
    let s = stride(ls, layer);
    assert(0 <= neuron * s) by (nonlinear_arith)
        requires neuron >= 0, s >= 1;
    assert(neuron * s + input < ls[layer] * s) by (nonlinear_arith)
        requires neuron < ls[layer], 0 <= input < s, s >= 1, neuron >= 0;
    assert(layer_offset(ls, layer + 1) == layer_offset(ls, layer) + ls[layer] * s);
    lemma_layer_offset_mono(ls, 1, layer);
    lemma_layer_offset_mono(ls, layer + 1, ls.len() as int);
}

/// Two distinct valid addresses have distinct flat indexes.
pub proof fn lemma_offset_injective(
    ls: Seq<usize>,
    l1: int, n1: int, i1: int,
    l2: int, n2: int, i2: int,
)
    requires
        layers_ok(ls),
        valid_address(ls, l1, n1, i1),
        valid_address(ls, l2, n2, i2),
        weight_offset(ls, l1, n1, i1) == weight_offset(ls, l2, n2, i2),
    ensures
        l1 == l2 && n1 == n2 && i1 == i2,
{
    if l1 < l2 {
        lemma_offset_below_next_layer(ls, l1, n1, i1);
        lemma_layer_offset_mono(ls, l1 + 1, l2);
        assert(n2 * stride(ls, l2) >= 0) by (nonlinear_arith)
            requires n2 >= 0, stride(ls, l2) >= 1;
        assert(false);
    } else if l2 < l1 {
        lemma_offset_below_next_layer(ls, l2, n2, i2);
        lemma_layer_offset_mono(ls, l2 + 1, l1);
        assert(n1 * stride(ls, l1) >= 0) by (nonlinear_arith)
            requires n1 >= 0, stride(ls, l1) >= 1;
        assert(false);
    } else {
        let s = stride(ls, l1);
        assert(n1 * s + i1 == n2 * s + i2);
        assert(n1 == n2 && i1 == i2) by (nonlinear_arith)
            requires
                n1 * s + i1 == n2 * s + i2,
                0 <= i1 < s,
                0 <= i2 < s,
                n1 >= 0,
                n2 >= 0;
    }
}

/// A valid address of layer `l` lies strictly before the next layer's block.
pub proof fn lemma_offset_below_next_layer(ls: Seq<usize>, l: int, n: int, i: int)
    requires
        layers_ok(ls),
        valid_address(ls, l, n, i),
    ensures
        layer_offset(ls, l) <= weight_offset(ls, l, n, i) < layer_offset(ls, l + 1),
{
    let s = stride(ls, l);
    assert(0 <= n * s) by (nonlinear_arith)
        requires n >= 0, s >= 1;
    assert(n * s + i < ls[l] * s) by (nonlinear_arith)
        requires n < ls[l], 0 <= i < s, s >= 1, n >= 0;
}

/// Every flat position of the weight buffer is the index of exactly one valid
/// address, returned here: the layout wastes no position and the addressing
/// round trip is total.
pub proof fn offset_address(ls: Seq<usize>, k: int) -> (r: (int, int, int))
    requires
        layers_ok(ls),
        0 <= k < weight_count(ls),
    ensures
        valid_address(ls, r.0, r.1, r.2),
        weight_offset(ls, r.0, r.1, r.2) == k,
{
    let l = find_layer(ls, k, ls.len() as int);
    let s = stride(ls, l);
    let rest = k - layer_offset(ls, l);
    let n = rest / s;
    let i = rest % s;
    assert(0 <= rest < ls[l] * s);
    vstd::arithmetic::div_mod::lemma_fundamental_div_mod(rest, s);
    vstd::arithmetic::div_mod::lemma_mod_bound(rest, s);
    assert(n >= 0) by (nonlinear_arith)
        requires rest >= 0, s >= 1, n == rest / s;
    assert(n < ls[l]) by (nonlinear_arith)
        requires
            rest == s * n + i,
            rest < ls[l] * s,
            0 <= i < s,
            s >= 1,
            n >= 0;
    assert(weight_offset(ls, l, n, i) == k) by (nonlinear_arith)
        requires
            rest == s * n + i,
            rest == k - layer_offset(ls, l),
            weight_offset(ls, l, n, i) == layer_offset(ls, l) + n * s + i;
    (l, n, i)
}

/// Helper for [`offset_address`]: the layer whose block holds flat index `k`.
proof fn find_layer(ls: Seq<usize>, k: int, hi: int) -> (l: int)
    requires
        layers_ok(ls),
        2 <= hi <= ls.len(),
        0 <= k < layer_offset(ls, hi),
    ensures
        1 <= l < hi,
        layer_offset(ls, l) <= k < layer_offset(ls, l) + ls[l] * stride(ls, l),
    decreases hi,
{
    if k >= layer_offset(ls, hi - 1) {
        hi - 1
    } else {
        find_layer(ls, k, hi - 1)
    }
}

} // verus!
