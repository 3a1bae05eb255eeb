//! The network: a topology and a flat weight buffer, with verified
//! construction, weight addressing, layout queries for the forward pass, and
//! the two genetic operators.
//!
//! Weights are 32-bit IEEE-754 bit patterns (see [`crate::bits`]); every
//! fresh weight is drawn on the uniform grid over the closed interval from
//! minus one to one.

use vstd::prelude::*;
use vstd::pervasive::VecAdditionalExecFns;
use vstd::slice::{slice_index_get, slice_to_vec};
use crate::address::{
    layers_ok, stride, layer_offset, weight_count, valid_address, weight_offset,
    lemma_layer_offset_mono, lemma_offset_in_bounds, lemma_offset_below_next_layer,
};
use crate::bits::{WEIGHT_GRID, fresh_weight, grid_weight_bits_spec, weight_in_range, grid_weight_bits};
use crate::chance::Chance;
use crate::error::{CreationError, RunError};
use crate::rng::{get_rng, rand_below};

verus! {

/// A feedforward network: an ordered sequence of positive layer widths and
/// one flat buffer of weight bit patterns laid out as [`crate::address`]
/// describes.
#[derive(Debug)]
pub struct Network {
    layers: Vec<usize>,
    weights: Vec<u32>,
}

/// Two networks that hold the same topology and the same weights.
pub open spec fn net_equal(a: Network, b: Network) -> bool {
    a.layers_spec() == b.layers_spec() && a.weights_spec() == b.weights_spec()
}

/// `child` is a uniform crossover of `father` and `mother`: their shared
/// topology, and every weight either parent's at that position — never
/// anything else.
pub open spec fn crossover_of(child: Network, father: Network, mother: Network) -> bool {
    &&& child.layers_spec() == father.layers_spec()
    &&& child.weights_spec().len() == father.weights_spec().len()
    &&& child.weights_spec().len() == mother.weights_spec().len()
    &&& forall|i: int|
        0 <= i < child.weights_spec().len() ==> #[trigger] child.weights_spec()[i]
            == father.weights_spec()[i] || child.weights_spec()[i] == mother.weights_spec()[i]
}

/// `child` is a mutation of `parent`: the parent's topology, and every
/// weight either the parent's at that position or a fresh in-range grid
/// draw.
pub open spec fn mutation_of(child: Network, parent: Network) -> bool {
    &&& child.layers_spec() == parent.layers_spec()
    &&& child.weights_spec().len() == parent.weights_spec().len()
    &&& forall|i: int|
        0 <= i < child.weights_spec().len() ==> #[trigger] child.weights_spec()[i]
            == parent.weights_spec()[i] || (weight_in_range(child.weights_spec()[i])
            && fresh_weight(child.weights_spec()[i]))
}

impl Network {
    /// The topology, as a sequence of layer widths.
    pub closed spec fn layers_spec(&self) -> Seq<usize> {
        self.layers@
    }

    /// The flat weight buffer, as a sequence of bit patterns.
    pub closed spec fn weights_spec(&self) -> Seq<u32> {
        self.weights@
    }

    /// Structurally well formed: a valid topology, and a weight buffer whose
    /// length matches it exactly.
    pub open spec fn wf(&self) -> bool {
        layers_ok(self.layers_spec()) && self.weights_spec().len() == weight_count(
            self.layers_spec(),
        )
    }

    /// Every weight is a finite value of magnitude at most one.
    pub open spec fn weights_bounded(&self) -> bool {
        forall|i: int|
            0 <= i < self.weights_spec().len() ==> weight_in_range(#[trigger] self.weights_spec()[i])
    }

    /// Whether the given widths form a valid topology.
    pub fn layers_valid(layers: &[usize]) -> (r: bool)
        ensures
            r == layers_ok(layers@),
    {
        if layers.len() < 2 {
            return false;
        }
        let mut i: usize = 0;
        while i < layers.len()
            invariant
                i <= layers@.len(),
                forall|j: int| 0 <= j < i ==> layers@[j] > 0,
            decreases layers@.len() - i,
        {
            if *slice_index_get(layers, i) == 0 {
                return false;
            }
            i = i + 1;
        }
        true
    }

    /// Validates a topology, reporting the error construction would report.
    pub fn is_valid_type(layers: &[usize]) -> (r: Result<(), CreationError>)
        ensures
            r is Ok <==> layers_ok(layers@),
            r is Err ==> r == Result::<(), CreationError>::Err(CreationError::NotEnoughLayers),
    {
        if Self::layers_valid(layers) {
            Ok(())
        } else {
            Err(CreationError::NotEnoughLayers)
        }
    }

    /// A network over the given topology with every weight drawn
    /// independently and uniformly on the grid spanning the closed interval
    /// from minus one to one; an invalid topology is rejected.
    pub fn new(layers: Vec<usize>) -> (r: Result<Network, CreationError>)
        requires
            layers_ok(layers@) ==> weight_count(layers@) <= usize::MAX,
        ensures
            match r {
                Ok(n) => layers_ok(layers@) && n.wf() && n.weights_bounded()
                    && n.layers_spec() == layers@ && forall|i: int|
                    0 <= i < n.weights_spec().len() ==> fresh_weight(#[trigger] n.weights_spec()[i]),
                Err(e) => !layers_ok(layers@) && e == CreationError::NotEnoughLayers,
            },
    {
        if let Err(e) = Self::is_valid_type(layers.as_slice()) {
            return Err(e);
        }
        let count = count_weights(&layers);
        let mut rng = get_rng();
        let mut weights: Vec<u32> = Vec::new();
        while weights.len() < count
            invariant
                weights@.len() <= count,
                forall|i: int|
                    0 <= i < weights@.len() ==> weight_in_range(#[trigger] weights@[i])
                        && fresh_weight(weights@[i]),
            decreases count - weights@.len(),
        {
            let w = random_weight(&mut rng);
            weights.push(w);
        }
        Ok(Network { layers, weights })
    }

    /// `count` independently constructed random networks over one topology.
    pub fn multiple(layers: &[usize], count: usize) -> (r: Vec<Network>)
        requires
            layers_ok(layers@),
            weight_count(layers@) <= usize::MAX,
        ensures
            r@.len() == count,
            forall|i: int|
                0 <= i < count ==> (#[trigger] r@[i]).wf() && r@[i].weights_bounded()
                    && r@[i].layers_spec() == layers@ && forall|k: int|
                    0 <= k < r@[i].weights_spec().len() ==> fresh_weight(
                        #[trigger] r@[i].weights_spec()[k],
                    ),
    {
        let mut nets: Vec<Network> = Vec::new();
        while nets.len() < count
            invariant
                layers_ok(layers@),
                weight_count(layers@) <= usize::MAX,
                nets@.len() <= count,
                forall|i: int|
                    0 <= i < nets@.len() ==> (#[trigger] nets@[i]).wf() && nets@[i].weights_bounded()
                        && nets@[i].layers_spec() == layers@ && forall|k: int|
                        0 <= k < nets@[i].weights_spec().len() ==> fresh_weight(
                            #[trigger] nets@[i].weights_spec()[k],
                        ),
            decreases count - nets@.len(),
        {
            match Self::new(slice_to_vec(layers)) {
                Ok(n) => nets.push(n),
                Err(_) => {
                    assert(false);
                },
            }
        }
        nets
    }

    /// An exact copy: same topology, same weights.
    pub fn duplicate(&self) -> (r: Network)
        ensures
            net_equal(r, *self),
    {
        Network { layers: copy_usize_vec(&self.layers), weights: copy_u32_vec(&self.weights) }
    }

    /// The topology.
    pub fn layers(&self) -> (r: &Vec<usize>)
        ensures
            r@ == self.layers_spec(),
    {
        &self.layers
    }

    /// The flat weight buffer, read-only.
    pub fn weight_buffer(&self) -> (r: &Vec<u32>)
        ensures
            r@ == self.weights_spec(),
    {
        &self.weights
    }

    /// Checks an input vector's length against the input width, reporting
    /// the error forward evaluation reports: anything but an exact match is
    /// rejected.
    pub fn check_input_count(&self, input_len: usize) -> (r: Result<(), RunError>)
        requires
            self.wf(),
        ensures
            r is Ok <==> input_len == self.layers_spec()[0],
            r is Err ==> r == Result::<(), RunError>::Err(RunError::WrongInputCount),
    {
        if input_len == self.layers[0] {
            Ok(())
        } else {
            Err(RunError::WrongInputCount)
        }
    }

    /// Flat offset of a valid weight address: the sum of the block sizes of
    /// all earlier computed layers, plus the neuron's run, plus the input
    /// position.
    fn address_offset(&self, layer: usize, neuron: usize, input: usize) -> (off: usize)
        requires
            self.wf(),
            valid_address(self.layers_spec(), layer as int, neuron as int, input as int),
        ensures
            off == weight_offset(self.layers_spec(), layer as int, neuron as int, input as int),
    {
        let ghost ls = self.layers_spec();
        let total = self.weights.len();
        proof {
            assert(total == weight_count(ls));
        }
        let mut off: usize = 0;
        let mut i: usize = 1;
        while i < layer
            invariant
                self.wf(),
                ls == self.layers_spec(),
                total == weight_count(ls),
                valid_address(ls, layer as int, neuron as int, input as int),
                1 <= i <= layer,
                off == layer_offset(ls, i as int),
            decreases layer - i,
        {
            proof {
                lemma_block_fits(ls, i as int);
                lemma_layer_offset_mono(ls, i as int + 1, ls.len() as int);
            }
            off = off + self.layers[i] * (self.layers[i - 1] + 1);
            i = i + 1;
        }
        proof {
            lemma_offset_below_next_layer(ls, layer as int, neuron as int, input as int);
            lemma_layer_offset_mono(ls, layer as int + 1, ls.len() as int);
            lemma_block_fits(ls, layer as int);
        }
        off + neuron * (self.layers[layer - 1] + 1) + input
    }

    /// The weight at a valid (layer, neuron, input) address; input index
    /// `layers[layer-1]` reads the bias.
    pub fn weight(&self, layer: usize, neuron: usize, input: usize) -> (r: u32)
        requires
            self.wf(),
            valid_address(self.layers_spec(), layer as int, neuron as int, input as int),
        ensures
            r == self.weights_spec()[weight_offset(
                self.layers_spec(), layer as int, neuron as int, input as int,
            )],
    {
        let off = self.address_offset(layer, neuron, input);
        proof {
            lemma_offset_in_bounds(
                self.layers_spec(), layer as int, neuron as int, input as int,
            );
        }
        self.weights[off]
    }

    /// Writes the weight at a valid address; exactly that flat position
    /// changes.
    pub fn set_weight(&mut self, layer: usize, neuron: usize, input: usize, value: u32)
        requires
            old(self).wf(),
            valid_address(old(self).layers_spec(), layer as int, neuron as int, input as int),
        ensures
            final(self).layers_spec() == old(self).layers_spec(),
            final(self).weights_spec() == old(self).weights_spec().update(
                weight_offset(
                    old(self).layers_spec(), layer as int, neuron as int, input as int,
                ),
                value,
            ),
            final(self).wf(),
    {
        let off = self.address_offset(layer, neuron, input);
        proof {
            lemma_offset_in_bounds(
                self.layers_spec(), layer as int, neuron as int, input as int,
            );
        }
        self.weights.set(off, value);
    }

    /// Bounds of the weight run of one neuron: the weights of layer `layer`,
    /// neuron `neuron` are the buffer positions `r.0 ..= r.1 - 1`, input
    /// weights first, bias last; the run lies inside the buffer.
    pub fn neuron_section(&self, layer: usize, neuron: usize) -> (r: (usize, usize))
        requires
            self.wf(),
            1 <= layer < self.layers_spec().len(),
            neuron < self.layers_spec()[layer as int],
        ensures
            r.0 == weight_offset(self.layers_spec(), layer as int, neuron as int, 0),
            r.1 == r.0 + stride(self.layers_spec(), layer as int),
            r.1 <= self.weights_spec().len(),
            forall|input: int|
                0 <= input < stride(self.layers_spec(), layer as int)
                    ==> weight_offset(self.layers_spec(), layer as int, neuron as int, input)
                        == r.0 + input,
    {
        let off = self.address_offset(layer, neuron, 0);
        let total = self.weights.len();
        proof {
            let ls = self.layers_spec();
            assert(total == weight_count(ls));
            lemma_offset_below_next_layer(
                ls, layer as int, neuron as int, stride(ls, layer as int) - 1,
            );
            lemma_layer_offset_mono(ls, layer as int + 1, ls.len() as int);
        }
        (off, off + (self.layers[layer - 1] + 1))
    }

    /// Uniform crossover: a new network over the parents' shared topology
    /// whose every weight is the father's with probability `p`, else the
    /// mother's — never anything else.
    pub fn breed(father: &Network, mother: &Network, p: Chance) -> (r: Network)
        requires
            father.wf(),
            mother.wf(),
            father.layers_spec() == mother.layers_spec(),
            p.valid(),
        ensures
            r.wf(),
            crossover_of(r, *father, *mother),
            p.num == p.den ==> r.weights_spec() == father.weights_spec(),
            p.num == 0 ==> r.weights_spec() == mother.weights_spec(),
            father.weights_bounded() && mother.weights_bounded() ==> r.weights_bounded(),
    {
        let layers = copy_usize_vec(&father.layers);
        let mut rng = get_rng();
        let mut weights: Vec<u32> = Vec::new();
        let n = father.weights.len();
        while weights.len() < n
            invariant
                father.wf(),
                mother.wf(),
                father.layers_spec() == mother.layers_spec(),
                p.valid(),
                n == father.weights_spec().len(),
                n == mother.weights_spec().len(),
                weights@.len() <= n,
                forall|i: int|
                    0 <= i < weights@.len() ==> #[trigger] weights@[i]
                        == father.weights_spec()[i] || weights@[i] == mother.weights_spec()[i],
                p.num == p.den ==> weights@ =~= father.weights_spec().take(weights@.len() as int),
                p.num == 0 ==> weights@ =~= mother.weights_spec().take(weights@.len() as int),
            decreases n - weights@.len(),
        {
            let i = weights.len();
            let w = if p.sample(&mut rng) {
                father.weights[i]
            } else {
                mother.weights[i]
            };
            weights.push(w);
        }
        proof {
            if p.num == p.den {
                assert(weights@ =~= father.weights_spec());
            }
            if p.num == 0 {
                assert(weights@ =~= mother.weights_spec());
            }
        }
        Network { layers, weights }
    }

    /// Mutation: a new network over the parent's topology where each weight
    /// position, independently with probability `p`, is replaced by a fresh
    /// uniform draw on the grid spanning minus one to one, and is otherwise
    /// the parent's weight unchanged.
    pub fn mutate(parent: &Network, p: Chance) -> (r: Network)
        requires
            parent.wf(),
            p.valid(),
        ensures
            r.wf(),
            mutation_of(r, *parent),
            p.num == 0 ==> r.weights_spec() == parent.weights_spec(),
            p.num == p.den ==> r.weights_bounded() && forall|i: int|
                0 <= i < r.weights_spec().len() ==> fresh_weight(#[trigger] r.weights_spec()[i]),
            parent.weights_bounded() ==> r.weights_bounded(),
    {
        let layers = copy_usize_vec(&parent.layers);
        let mut rng = get_rng();
        let mut weights: Vec<u32> = Vec::new();
        let n = parent.weights.len();
        while weights.len() < n
            invariant
                parent.wf(),
                p.valid(),
                n == parent.weights_spec().len(),
                weights@.len() <= n,
                forall|i: int|
                    0 <= i < weights@.len() ==> #[trigger] weights@[i]
                        == parent.weights_spec()[i] || (weight_in_range(weights@[i])
                        && fresh_weight(weights@[i])),
                p.num == 0 ==> weights@ =~= parent.weights_spec().take(weights@.len() as int),
                p.num == p.den ==> forall|i: int|
                    0 <= i < weights@.len() ==> weight_in_range(#[trigger] weights@[i])
                        && fresh_weight(weights@[i]),
            decreases n - weights@.len(),
        {
            let i = weights.len();
            let w = if p.sample(&mut rng) {
                random_weight(&mut rng)
            } else {
                parent.weights[i]
            };
            weights.push(w);
        }
        proof {
            if p.num == 0 {
                assert(weights@ =~= parent.weights_spec());
            }
        }
        Network { layers, weights }
    }
}

/// The addressing round trip: after writing a value at one valid address,
/// reading that address yields the written value, and reading any other
/// valid address yields what it held before — distinct addresses never share
/// a flat position. Together with [`crate::address::offset_address`], which
/// produces the one address of every buffer position, the addressing map is
/// a bijection between valid addresses and the flat buffer.
pub proof fn lemma_weight_round_trip(
    ls: Seq<usize>,
    ws: Seq<u32>,
    l1: int, n1: int, i1: int,
    l2: int, n2: int, i2: int,
    value: u32,
)
    requires
        layers_ok(ls),
        ws.len() == weight_count(ls),
        valid_address(ls, l1, n1, i1),
        valid_address(ls, l2, n2, i2),
    ensures
        ws.update(weight_offset(ls, l1, n1, i1), value)[weight_offset(ls, l1, n1, i1)] == value,
        (l1 != l2 || n1 != n2 || i1 != i2) ==> ws.update(
            weight_offset(ls, l1, n1, i1),
            value,
        )[weight_offset(ls, l2, n2, i2)] == ws[weight_offset(ls, l2, n2, i2)],
{
    lemma_offset_in_bounds(ls, l1, n1, i1);
    lemma_offset_in_bounds(ls, l2, n2, i2);
    if l1 != l2 || n1 != n2 || i1 != i2 {
        if weight_offset(ls, l1, n1, i1) == weight_offset(ls, l2, n2, i2) {
            crate::address::lemma_offset_injective(ls, l1, n1, i1, l2, n2, i2);
        }
    }
}

/// A fresh weight: a uniform draw on the `2^24 + 1` point grid spanning the
/// closed interval from minus one to one, as a bit pattern.
fn random_weight(rng: &mut rand::rngs::ThreadRng) -> (r: u32)
    ensures
        weight_in_range(r),
        fresh_weight(r),
{
    let k = rand_below(rng, (WEIGHT_GRID + 1) as usize);
    let bits = grid_weight_bits(k as u32);
    proof {
        assert(bits == grid_weight_bits_spec(k as nat));
    }
    bits
}

/// Total weight count of a valid topology, by one pass over the layers.
fn count_weights(layers: &Vec<usize>) -> (n: usize)
    requires
        layers_ok(layers@),
        weight_count(layers@) <= usize::MAX,
    ensures
        n == weight_count(layers@),
{
    let ghost ls = layers@;
    let mut n: usize = 0;
    let mut i: usize = 1;
    while i < layers.len()
        invariant
            layers_ok(ls),
            ls == layers@,
            weight_count(ls) <= usize::MAX,
            1 <= i <= ls.len(),
            n == layer_offset(ls, i as int),
        decreases ls.len() - i,
    {
        proof {
            lemma_block_fits(ls, i as int);
            lemma_layer_offset_mono(ls, i as int + 1, ls.len() as int);
        }
        n = n + layers[i] * (layers[i - 1] + 1);
        i = i + 1;
    }
    n
}

/// The block of layer `i` extends its start to exactly the next layer's
/// start, and a stride never exceeds its block.
proof fn lemma_block_fits(ls: Seq<usize>, i: int)
    requires
        layers_ok(ls),
        1 <= i < ls.len(),
    ensures
        layer_offset(ls, i + 1) == layer_offset(ls, i) + ls[i] * stride(ls, i),
        layer_offset(ls, i) >= 0,
        ls[i] * stride(ls, i) >= stride(ls, i),
{
    lemma_layer_offset_mono(ls, 1, i);
    assert(ls[i] * stride(ls, i) >= stride(ls, i)) by (nonlinear_arith)
        requires ls[i] >= 1, stride(ls, i) >= 1;
}

/// An element-for-element copy of a vector of widths.
fn copy_usize_vec(v: &Vec<usize>) -> (r: Vec<usize>)
    ensures
        r@ == v@,
{
    let mut r: Vec<usize> = Vec::new();
    let mut i: usize = 0;
    while i < v.len()
        invariant
            i <= v@.len(),
            r@ =~= v@.take(i as int),
        decreases v@.len() - i,
    {
        r.push(v[i]);
        i = i + 1;
    }
    proof {
        assert(r@ =~= v@);
    }
    r
}

/// An element-for-element copy of a weight buffer.
fn copy_u32_vec(v: &Vec<u32>) -> (r: Vec<u32>)
    ensures
        r@ == v@,
{
    let mut r: Vec<u32> = Vec::new();
    let mut i: usize = 0;
    while i < v.len()
        invariant
            i <= v@.len(),
            r@ =~= v@.take(i as int),
        decreases v@.len() - i,
    {
        r.push(v[i]);
        i = i + 1;
    }
    proof {
        assert(r@ =~= v@);
    }
    r
}

} // verus!
