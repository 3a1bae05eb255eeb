//! The population environment: one evolutionary generation over a population
//! of networks.
//!
//! A generation ranks the population by caller-supplied scores (lower is
//! better), selects survivors by a randomized geometric-growth rule over the
//! ranks — the two best always survive — keeps the survivors verbatim in rank
//! order, and fills the remaining slots with offspring of the survivors:
//! each slot independently breeds two distinct survivors with probability
//! three tenths, and otherwise mutates one survivor.

use vstd::prelude::*;
use vstd::pervasive::unreached;
use vstd::multiset::Multiset;
use rayon::iter::ParallelIterator;
use crate::address::{layers_ok, weight_count};
use crate::bits::{total_order_key, total_order_key_spec};
use crate::chance::Chance;
use crate::error::CreationError;
use crate::nn::{crossover_of, mutation_of, net_equal, Network};
use crate::rng::{get_rng, rand_below};

verus! {

broadcast use vstd::seq_lib::group_to_multiset_ensures;

/// A usable gene pool: every network well formed with bounded weights, and
/// all of one topology.
pub open spec fn pool_ok(nets: Seq<Network>) -> bool {
    &&& forall|i: int|
        0 <= i < nets.len() ==> (#[trigger] nets[i]).wf() && nets[i].weights_bounded()
    &&& forall|i: int, j: int|
        0 <= i < nets.len() && 0 <= j < nets.len() ==> (#[trigger] nets[i].layers_spec())
            == (#[trigger] nets[j].layers_spec())
}

/// A usable rated gene pool: scores paired with the networks of one pool.
pub open spec fn rated_pool_ok(rated: Seq<(u32, Network)>) -> bool {
    &&& forall|i: int|
        0 <= i < rated.len() ==> (#[trigger] rated[i].1).wf() && rated[i].1.weights_bounded()
    &&& forall|i: int, j: int|
        0 <= i < rated.len() && 0 <= j < rated.len() ==> (#[trigger] rated[i].1.layers_spec())
            == (#[trigger] rated[j].1.layers_spec())
}

/// Sorted ascending by score: the best (lowest) score first.
pub open spec fn sorted_by_key(s: Seq<(u32, Network)>) -> bool {
    forall|i: int, j: int| 0 <= i <= j < s.len() ==> (#[trigger] s[i]).0 <= (#[trigger] s[j]).0
}

/// The growth shape of a survivor index list over a population of `n`
/// ranks: it keeps ranks zero and one, every later entry steps past the one
/// before it by at least one and at most `last + 1` — the geometric-growth
/// bound of the rule — and no entry reaches `n`.
pub open spec fn survivor_steps_ok(d: Seq<usize>, n: int) -> bool {
    &&& d.len() >= 2
    &&& d[0] == 0
    &&& d[1] == 1
    &&& forall|i: int| 0 <= i < d.len() ==> (#[trigger] d[i]) < n
    &&& forall|i: int|
        0 < i < d.len() ==> d[i - 1] < (#[trigger] d[i]) && d[i] <= 2 * d[i - 1] + 1
}

/// A completed survivor index list over `n` ranks: the growth shape of
/// [`survivor_steps_ok`], stopped only where it had to stop — even the
/// largest step from the last kept rank would leave the population, so
/// `2 * last + 2 > n`.
pub open spec fn is_survivor_distribution(d: Seq<usize>, n: int) -> bool {
    &&& survivor_steps_ok(d, n)
    &&& 2 * d[d.len() - 1] + 2 > n
}

/// `result` begins with the networks of `rated` at the ranks of the survivor
/// index list `d`, in rank order.
pub open spec fn selection_of(
    d: Seq<usize>,
    rated: Seq<(u32, Network)>,
    count: int,
    result: Seq<Network>,
) -> bool {
    &&& is_survivor_distribution(d, rated.len() as int)
    &&& d.len() == count
    &&& forall|i: int| 0 <= i < count ==> net_equal(#[trigger] result[i], rated[d[i] as int].1)
}

/// `child` could fill one regenerated slot over the survivor pool: it is a
/// uniform crossover of two distinct survivors, or a mutation of one
/// survivor — never anything else.
pub open spec fn offspring_of(child: Network, survivors: Seq<Network>) -> bool {
    ||| exists|a: int, b: int|
        0 <= a < survivors.len() && 0 <= b < survivors.len() && a != b && crossover_of(
            child,
            survivors[a],
            survivors[b],
        )
    ||| exists|s: int| 0 <= s < survivors.len() && mutation_of(child, survivors[s])
}

/// A survivor index list grows at least as fast as the ranks: entry `i` is at
/// least `i`.
proof fn lemma_distribution_grows(d: Seq<usize>, n: int, i: int)
    requires
        is_survivor_distribution(d, n),
        0 <= i < d.len(),
    ensures
        d[i] >= i,
    decreases i,
{
    if i > 0 {
        lemma_distribution_grows(d, n, i - 1);
    }
}

/// A survivor index list over `n` ranks keeps at most `n` survivors, and its
/// entry `i` is at least `i`.
pub proof fn lemma_survivor_distribution_bounds(d: Seq<usize>, n: int)
    requires
        is_survivor_distribution(d, n),
    ensures
        d.len() <= n,
        forall|i: int| 0 <= i < d.len() ==> (#[trigger] d[i]) >= i,
{
    assert forall|i: int| 0 <= i < d.len() implies (#[trigger] d[i]) >= i by {
        lemma_distribution_grows(d, n, i);
    }
    if d.len() > n {
        lemma_distribution_grows(d, n, n);
    }
}

/// Selection keeps the minimum: over a ranking sorted ascending by score and
/// any survivor index list, the score at the best-ranked survivor is at most
/// the score at every survivor.
pub proof fn lemma_selection_monotone(rated: Seq<(u32, Network)>, d: Seq<usize>)
    requires
        sorted_by_key(rated),
        is_survivor_distribution(d, rated.len() as int),
    ensures
        forall|i: int| 0 <= i < d.len() ==> rated[d[0] as int].0 <= rated[(#[trigger] d[i]) as int].0,
{
}

/// The survivor index list of one generation over `n` ranks: start from the
/// two best ranks, then repeatedly step from the last kept rank `last` by
/// `1 + draw` for a uniform `draw` in `0 ..= last` — note the whole bound
/// `last + 1` on the draw — and stop at the first step that would leave the
/// population.
pub fn generate_survivor_distribution(n: usize) -> (r: Vec<usize>)
    requires
        n >= 2,
    ensures
        is_survivor_distribution(r@, n as int),
{
    let mut rng = get_rng();
    let mut survivors: Vec<usize> = vec![0, 1];
    let mut last: usize = 1;
    loop
        invariant_except_break
            n >= 2,
            survivors@.len() >= 2,
            last == survivors@[survivors@.len() - 1],
            last < n,
            survivor_steps_ok(survivors@, n as int),
        ensures
            is_survivor_distribution(survivors@, n as int),
        decreases n - last,
    {
        let draw = rand_below(&mut rng, last + 1);
        let step = 1 + draw;
        if step <= n - 1 - last {
            let next = last + step;
            survivors.push(next);
            last = next;
        } else {
            break;
        }
    }
    survivors
}

/// One offspring slot: with probability three tenths, breed two distinct
/// survivors drawn uniformly (crossover probability one half); otherwise
/// mutate one uniformly drawn survivor (mutation probability one fifth).
fn make_offspring(survivors: &Vec<Network>) -> (r: Network)
    requires
        pool_ok(survivors@),
        survivors@.len() >= 2,
    ensures
        r.wf(),
        r.weights_bounded(),
        r.layers_spec() == survivors@[0].layers_spec(),
        offspring_of(r, survivors@),
{
    let mut rng = get_rng();
    if Chance::new(3, 10).sample(&mut rng) {
        let i = rand_below(&mut rng, survivors.len());
        let j0 = rand_below(&mut rng, survivors.len() - 1);
        let j = if j0 >= i {
            j0 + 1
        } else {
            j0
        };
        let child = Network::breed(&survivors[i], &survivors[j], Chance::new(1, 2));
        proof {
            assert(crossover_of(child, survivors@[i as int], survivors@[j as int]));
        }
        child
    } else {
        let i = rand_below(&mut rng, survivors.len());
        let child = Network::mutate(&survivors[i], Chance::new(2, 10));
        proof {
            assert(mutation_of(child, survivors@[i as int]));
        }
        child
    }
}

/// Relies on rayon's repeatn, map and collect: the closure runs once per
/// offspring slot (the slots are independent, one worker each) and collect
/// gathers exactly `count` results in order; every element is a result of the
/// verified [`make_offspring`], so that function's contract holds of each.
#[verifier::external_body]
fn par_offspring(survivors: &Vec<Network>, count: usize) -> (r: Vec<Network>)
    requires
        pool_ok(survivors@),
        survivors@.len() >= 2,
    ensures
        r@.len() == count,
        forall|i: int|
            0 <= i < count ==> (#[trigger] r@[i]).wf() && r@[i].weights_bounded()
                && r@[i].layers_spec() == survivors@[0].layers_spec() && offspring_of(
                r@[i],
                survivors@,
            ),
{
    rayon::iter::repeatn((), count).map(|_| make_offspring(survivors)).collect()
}

/// Insertion sort ascending by score; the pairs are rearranged, never made
/// up or dropped.
pub fn sort_fitness_vec(nn: Vec<(u32, Network)>) -> (r: Vec<(u32, Network)>)
    ensures
        sorted_by_key(r@),
        r@.to_multiset() == nn@.to_multiset(),
        r@.len() == nn@.len(),
{
    let mut rest = nn;
    let mut out: Vec<(u32, Network)> = Vec::new();
    while rest.len() > 0
        invariant
            sorted_by_key(out@),
            out@.to_multiset().add(rest@.to_multiset()) == nn@.to_multiset(),
            out@.len() + rest@.len() == nn@.len(),
        decreases rest@.len(),
    {
        let ghost rest0 = rest@;
        let x = match rest.pop() {
            Some(x) => x,
            None => {
                proof {
                    assert(false);
                }
                unreached()
            },
        };
        proof {
            assert(rest0 =~= rest@.push(x));
            assert(rest0.to_multiset() =~= rest@.to_multiset().insert(x));
        }
        let mut j = out.len();
        while j > 0 && out[j - 1].0 > x.0
            invariant
                j <= out@.len(),
                sorted_by_key(out@),
                forall|k: int| j <= k < out@.len() ==> (#[trigger] out@[k]).0 > x.0,
            decreases j,
        {
            j = j - 1;
        }
        let ghost out0 = out@;
        out.insert(j, x);
        proof {
            out0.insert_ensures(j as int, x);
            assert(out@.to_multiset() =~= out0.to_multiset().insert(x));
            assert(out@.to_multiset().add(rest@.to_multiset()) =~= out0.to_multiset().add(
                rest0.to_multiset(),
            ));
            assert forall|a: int, b: int| 0 <= a <= b < out@.len() implies (#[trigger] out@[a]).0
                <= (#[trigger] out@[b]).0 by {
                if a < j && b >= j && b > a {
                    assert(out@[a] == out0[a]);
                }
            }
        }
    }
    proof {
        assert(rest@.to_multiset() =~= Multiset::<(u32, Network)>::empty());
        assert(out@.to_multiset().add(rest@.to_multiset()) =~= out@.to_multiset());
    }
    out
}

/// A position of `b` holding the same pair as position `i` of `a`, which
/// exists whenever the two sequences hold the same pairs as multisets.
proof fn lemma_ms_index_source(a: Seq<(u32, Network)>, b: Seq<(u32, Network)>, i: int) -> (j: int)
    requires
        a.to_multiset() == b.to_multiset(),
        0 <= i < a.len(),
    ensures
        0 <= j < b.len(),
        b[j] == a[i],
{
    assert(a.contains(a[i]));
    assert(b.to_multiset().count(a[i]) > 0);
    assert(b.contains(a[i]));
    choose|j: int| 0 <= j < b.len() && b[j] == a[i]
}

/// A rearrangement of a usable rated pool is a usable rated pool.
proof fn lemma_rated_pool_rearranged(a: Seq<(u32, Network)>, b: Seq<(u32, Network)>)
    requires
        rated_pool_ok(a),
        b.to_multiset() == a.to_multiset(),
    ensures
        rated_pool_ok(b),
{
    assert(a.to_multiset().len() == a.len());
    assert(b.to_multiset().len() == b.len());
    assert forall|i: int|
        0 <= i < b.len() implies (#[trigger] b[i].1).wf() && b[i].1.weights_bounded() by {
        let j = lemma_ms_index_source(b, a, i);
    }
    assert forall|i: int, j: int|
        0 <= i < b.len() && 0 <= j < b.len() implies (#[trigger] b[i].1.layers_spec())
            == (#[trigger] b[j].1.layers_spec()) by {
        let si = lemma_ms_index_source(b, a, i);
        let sj = lemma_ms_index_source(b, a, j);
    }
}

/// Entries of a survivor index list never decrease with the rank.
proof fn lemma_distribution_increasing(d: Seq<usize>, n: int, a: int, b: int)
    requires
        is_survivor_distribution(d, n),
        0 <= a <= b < d.len(),
    ensures
        d[a] <= d[b],
    decreases b - a,
{
    if a < b {
        lemma_distribution_increasing(d, n, a, b - 1);
    }
}

/// Two distinct positions of `a` have two distinct positions of `b` holding
/// the same pairs, whenever the two sequences hold the same pairs as
/// multisets: remove the first matched position from both sides and match
/// again in what is left.
proof fn lemma_ms_two_sources(
    a: Seq<(u32, Network)>,
    b: Seq<(u32, Network)>,
    i: int,
    j: int,
) -> (r: (int, int))
    requires
        a.to_multiset() == b.to_multiset(),
        0 <= i < a.len(),
        0 <= j < a.len(),
        i != j,
    ensures
        0 <= r.0 < b.len(),
        0 <= r.1 < b.len(),
        r.0 != r.1,
        b[r.0] == a[i],
        b[r.1] == a[j],
{
    let p = lemma_ms_index_source(a, b, i);
    let a2 = a.remove(i);
    let b2 = b.remove(p);
    a.remove_ensures(i);
    b.remove_ensures(p);
    assert(a2.to_multiset() == b2.to_multiset()) by {
        assert(a.remove(i).to_multiset() =~= a.to_multiset().remove(a[i]));
        assert(b.remove(p).to_multiset() =~= b.to_multiset().remove(b[p]));
    }
    let j2: int = if j < i {
        j
    } else {
        j - 1
    };
    assert(a2[j2] == a[j]);
    let q2 = lemma_ms_index_source(a2, b2, j2);
    let q: int = if q2 < p {
        q2
    } else {
        q2 + 1
    };
    assert(b[q] == b2[q2]);
    (p, q)
}

/// One regeneration over a ranking sorted best first: the survivors of a
/// fresh survivor index list are kept verbatim in rank order — ranks zero and
/// one always among them — and every remaining slot is filled with an
/// offspring of the kept survivors: a crossover of two distinct survivors or
/// a mutation of one; the population size never changes.
#[verifier::rlimit(30)]
pub fn evolve_rated_networks(ordered_nn: Vec<(u32, Network)>) -> (r: (usize, Vec<Network>))
    requires
        ordered_nn@.len() >= 2,
        rated_pool_ok(ordered_nn@),
    ensures
        r.1@.len() == ordered_nn@.len(),
        2 <= r.0 <= ordered_nn@.len(),
        exists|d: Seq<usize>| selection_of(d, ordered_nn@, r.0 as int, r.1@),
        net_equal(r.1@[0], ordered_nn@[0].1),
        net_equal(r.1@[1], ordered_nn@[1].1),
        pool_ok(r.1@),
        forall|i: int|
            0 <= i < r.1@.len() ==> (#[trigger] r.1@[i]).layers_spec()
                == ordered_nn@[0].1.layers_spec(),
        forall|i: int|
            r.0 <= i < r.1@.len() ==> offspring_of(
                #[trigger] r.1@[i],
                r.1@.subrange(0, r.0 as int),
            ),
{
    let n = ordered_nn.len();
    let dist = generate_survivor_distribution(n);
    proof {
        lemma_survivor_distribution_bounds(dist@, n as int);
    }
    let survivor_count = dist.len();
    let mut survivors: Vec<Network> = Vec::new();
    let mut si: usize = 0;
    while si < survivor_count
        invariant
            n == ordered_nn@.len(),
            rated_pool_ok(ordered_nn@),
            is_survivor_distribution(dist@, n as int),
            survivor_count == dist@.len(),
            si <= survivor_count,
            survivors@.len() == si,
            forall|i: int|
                0 <= i < si ==> net_equal(#[trigger] survivors@[i], ordered_nn@[dist@[i] as int].1),
        decreases survivor_count - si,
    {
        let idx = dist[si];
        let net = ordered_nn[idx].1.duplicate();
        survivors.push(net);
        si = si + 1;
    }
    proof {
        assert forall|i: int|
            0 <= i < survivors@.len() implies (#[trigger] survivors@[i]).wf()
                && survivors@[i].weights_bounded()
                && survivors@[i].layers_spec() == ordered_nn@[0].1.layers_spec() by {
            assert(net_equal(survivors@[i], ordered_nn@[dist@[i] as int].1));
        }
    }
    let mut networks = survivors;
    let ghost survivors_view = networks@;
    let mut offspring = par_offspring(&networks, n - survivor_count);
    let ghost offspring_view = offspring@;
    networks.append(&mut offspring);
    proof {
        assert(selection_of(dist@, ordered_nn@, survivor_count as int, networks@));
        assert(exists|d: Seq<usize>|
            selection_of(d, ordered_nn@, survivor_count as int, networks@));
        assert(networks@.subrange(0, survivor_count as int) =~= survivors_view);
        assert forall|i: int|
            survivor_count <= i < networks@.len() implies offspring_of(
                #[trigger] networks@[i],
                networks@.subrange(0, survivor_count as int),
            ) by {
            assert(networks@[i] == offspring_view[i - survivor_count]);
            assert(offspring_of(offspring_view[i - survivor_count], survivors_view));
        }
    }
    (survivor_count, networks)
}

/// The population environment: a fixed-size population of networks over one
/// topology, the count of survivors kept unmodified by the most recent
/// generation, and the generation counter.
#[derive(Debug)]
pub struct Environment {
    networks: Vec<Network>,
    survivor_count: usize,
    generation: u32,
}

impl Environment {
    /// The population, in current-generation slot order.
    pub closed spec fn networks_spec(&self) -> Seq<Network> {
        self.networks@
    }

    /// How many networks of the most recent generation were kept unmodified.
    pub closed spec fn survivor_count_spec(&self) -> usize {
        self.survivor_count
    }

    /// Completed generations.
    pub closed spec fn generation_spec(&self) -> u32 {
        self.generation
    }

    /// A usable environment: a usable pool, and a survivor count that never
    /// exceeds the population.
    pub open spec fn wf(&self) -> bool {
        pool_ok(self.networks_spec()) && self.survivor_count_spec() <= self.networks_spec().len()
    }

    /// An environment of `network_count` independently random networks over
    /// the given topology; an invalid topology is rejected.
    pub fn new(network_type: &[usize], network_count: usize) -> (r: Result<
        Environment,
        CreationError,
    >)
        requires
            layers_ok(network_type@) ==> weight_count(network_type@) <= usize::MAX,
        ensures
            match r {
                Ok(e) => layers_ok(network_type@) && e.wf() && e.networks_spec().len()
                    == network_count && e.survivor_count_spec() == 0 && e.generation_spec() == 0
                    && forall|i: int|
                    0 <= i < network_count ==> (#[trigger] e.networks_spec()[i]).layers_spec()
                        == network_type@,
                Err(e) => !layers_ok(network_type@) && e == CreationError::NotEnoughLayers,
            },
    {
        if let Err(e) = Network::is_valid_type(network_type) {
            return Err(e);
        }
        let networks = Network::multiple(network_type, network_count);
        Ok(Environment { networks, survivor_count: 0, generation: 0 })
    }

    /// The population member in slot `index` of the current generation; slot
    /// order is not meaningful between generations.
    pub fn get_network(&self, index: usize) -> (r: Option<&Network>)
        ensures
            match r {
                Some(n) => index < self.networks_spec().len() && *n == self.networks_spec()[index as int],
                None => index >= self.networks_spec().len(),
            },
    {
        if index < self.networks.len() {
            Some(&self.networks[index])
        } else {
            None
        }
    }

    /// The best-ranked individual of the most recent selection (slot zero).
    pub fn get_best(&self) -> (r: &Network)
        requires
            self.networks_spec().len() >= 1,
        ensures
            *r == self.networks_spec()[0],
    {
        &self.networks[0]
    }

    /// The `index`-th best survivor kept unmodified by the most recent
    /// generation, or nothing when fewer survivors were kept.
    pub fn get_previous_survivor(&self, index: usize) -> (r: Option<&Network>)
        requires
            self.wf(),
        ensures
            match r {
                Some(n) => index < self.survivor_count_spec() && *n == self.networks_spec()[index as int],
                None => index >= self.survivor_count_spec(),
            },
    {
        if self.survivor_count > index {
            Some(&self.networks[index])
        } else {
            None
        }
    }

    /// How many networks the most recent generation kept unmodified.
    pub fn survivor_count(&self) -> (r: usize)
        ensures
            r == self.survivor_count_spec(),
    {
        self.survivor_count
    }

    /// Completed generations.
    pub fn generation(&self) -> (r: u32)
        ensures
            r == self.generation_spec(),
    {
        self.generation
    }

    /// One full generation driven by scores: score `scores[i]` belongs to the
    /// network in slot `i`, lower is better. The population is ranked
    /// ascending by score, survivors are selected and kept in rank order —
    /// the two best scores always among them, and every later survivor slot
    /// scoring no better than an earlier one — the remaining slots are filled
    /// with offspring of the kept survivors, and the generation counter steps
    /// by one.
    pub fn rated_gen(&mut self, scores: &Vec<u32>)
        requires
            old(self).wf(),
            old(self).networks_spec().len() >= 2,
            scores@.len() == old(self).networks_spec().len(),
            old(self).generation_spec() < u32::MAX,
        ensures
            final(self).wf(),
            final(self).generation_spec() == old(self).generation_spec() + 1,
            final(self).networks_spec().len() == old(self).networks_spec().len(),
            2 <= final(self).survivor_count_spec() <= final(self).networks_spec().len(),
            exists|i: int|
                0 <= i < old(self).networks_spec().len() && net_equal(
                    final(self).networks_spec()[0],
                    #[trigger] old(self).networks_spec()[i],
                ) && forall|j: int|
                    0 <= j < scores@.len() ==> total_order_key_spec(scores@[i])
                        <= total_order_key_spec(#[trigger] scores@[j]),
            forall|i: int|
                0 <= i < final(self).survivor_count_spec() ==> exists|j: int|
                    0 <= j < old(self).networks_spec().len() && net_equal(
                        #[trigger] final(self).networks_spec()[i],
                        old(self).networks_spec()[j],
                    ),
            forall|a: int, b: int|
                0 <= a <= b < final(self).survivor_count_spec() ==> exists|ia: int, ib: int|
                    0 <= ia < scores@.len() && 0 <= ib < scores@.len() && net_equal(
                        #[trigger] final(self).networks_spec()[a],
                        old(self).networks_spec()[ia],
                    ) && net_equal(
                        #[trigger] final(self).networks_spec()[b],
                        old(self).networks_spec()[ib],
                    ) && total_order_key_spec(scores@[ia]) <= total_order_key_spec(scores@[ib]),
            exists|i0: int, i1: int|
                #![trigger old(self).networks_spec()[i0], old(self).networks_spec()[i1]]
                0 <= i0 < scores@.len() && 0 <= i1 < scores@.len() && i0 != i1 && net_equal(
                    final(self).networks_spec()[0],
                    old(self).networks_spec()[i0],
                ) && net_equal(final(self).networks_spec()[1], old(self).networks_spec()[i1])
                    && total_order_key_spec(scores@[i0]) <= total_order_key_spec(scores@[i1]) && (
                forall|j: int|
                    0 <= j < scores@.len() && j != i0 && j != i1 ==> total_order_key_spec(
                        scores@[i1],
                    ) <= total_order_key_spec(#[trigger] scores@[j])),
            forall|i: int|
                final(self).survivor_count_spec() <= i < final(self).networks_spec().len()
                    ==> offspring_of(
                    #[trigger] final(self).networks_spec()[i],
                    final(self).networks_spec().subrange(
                        0,
                        final(self).survivor_count_spec() as int,
                    ),
                ),
            forall|i: int|
                0 <= i < final(self).networks_spec().len()
                    ==> (#[trigger] final(self).networks_spec()[i]).layers_spec()
                        == old(self).networks_spec()[0].layers_spec(),
    {
        let ghost old_nets = self.networks@;
        let g = self.generation;
        let mut pairs: Vec<(u32, Network)> = Vec::new();
        proof {
            assert(old_nets.skip(0) =~= old_nets);
        }
        while self.networks.len() > 0
            invariant
                scores@.len() == old_nets.len(),
                pairs@.len() + self.networks@.len() == old_nets.len(),
                self.networks@ == old_nets.skip(pairs@.len() as int),
                forall|i: int|
                    0 <= i < pairs@.len() ==> (#[trigger] pairs@[i]) == (
                        total_order_key_spec(scores@[i]),
                        old_nets[i],
                    ),
            decreases self.networks@.len(),
        {
            let k = total_order_key(scores[pairs.len()]);
            let ghost before = self.networks@;
            let net = self.networks.remove(0);
            proof {
                assert(before.remove(0) =~= old_nets.skip(pairs@.len() as int + 1));
            }
            pairs.push((k, net));
        }
        proof {
            assert(pairs@.len() == old_nets.len());
            assert(rated_pool_ok(pairs@)) by {
                assert(pool_ok(old_nets));
                assert forall|i: int|
                    0 <= i < pairs@.len() implies (#[trigger] pairs@[i].1).wf()
                        && pairs@[i].1.weights_bounded() by {
                    assert(pairs@[i].1 == old_nets[i]);
                }
                assert forall|i: int, j: int|
                    0 <= i < pairs@.len() && 0 <= j < pairs@.len() implies (
                    #[trigger] pairs@[i].1.layers_spec()) == (#[trigger] pairs@[j].1.layers_spec())
                    by {
                    assert(pairs@[i].1 == old_nets[i]);
                    assert(pairs@[j].1 == old_nets[j]);
                }
            }
        }
        let ghost pairs_view = pairs@;
        let sorted = sort_fitness_vec(pairs);
        proof {
            lemma_rated_pool_rearranged(pairs_view, sorted@);
        }
        let (sc, nets) = evolve_rated_networks(sorted);
        proof {
            // the best slot: sorted[0] came from some original slot i whose
            // key is minimal, since every original pair sits somewhere in the
            // sorted ranking at or after rank zero
            let i = lemma_ms_index_source(sorted@, pairs_view, 0);
            assert(pairs_view[i].0 == sorted@[0].0);
            assert forall|j: int|
                0 <= j < scores@.len() implies total_order_key_spec(scores@[i])
                    <= total_order_key_spec(#[trigger] scores@[j]) by {
                let q = lemma_ms_index_source(pairs_view, sorted@, j);
                assert(sorted@[0].0 <= sorted@[q].0);
            }
            assert(net_equal(nets@[0], old_nets[i]));
            // the topology is the old population's: rank zero of the sorted
            // ranking came from slot i, and all old slots share one topology
            assert(old_nets[i].layers_spec() == old_nets[0].layers_spec());
            assert(sorted@[0].1.layers_spec() == old_nets[0].layers_spec());
            assert forall|q: int|
                0 <= q < nets@.len() implies (#[trigger] nets@[q]).layers_spec()
                    == old_nets[0].layers_spec() by {
                assert(nets@[q].layers_spec() == sorted@[0].1.layers_spec());
            }
        }
        self.networks = nets;
        self.survivor_count = sc;
        self.generation = g + 1;
        proof {
            // every survivor slot holds a copy of some original network
            let d = choose|d: Seq<usize>|
                selection_of(d, sorted@, sc as int, self.networks@);
            assert forall|i: int|
                0 <= i < self.survivor_count_spec() implies exists|j: int|
                    0 <= j < old_nets.len() && net_equal(
                        #[trigger] self.networks@[i],
                        old_nets[j],
                    ) by {
                assert(net_equal(self.networks@[i], sorted@[d[i] as int].1));
                let j = lemma_ms_index_source(sorted@, pairs_view, d[i] as int);
                assert(pairs_view[j].1 == old_nets[j]);
                assert(net_equal(self.networks@[i], old_nets[j]));
            }
            // kept survivors ascend by the old scores: their selected ranks
            // ascend, the ranking is sorted, and each rank came from some
            // original slot carrying its own score
            assert forall|a: int, b: int|
                0 <= a <= b < self.survivor_count_spec() implies exists|ia: int, ib: int|
                    0 <= ia < scores@.len() && 0 <= ib < scores@.len() && net_equal(
                        #[trigger] self.networks@[a],
                        old_nets[ia],
                    ) && net_equal(#[trigger] self.networks@[b], old_nets[ib])
                    && total_order_key_spec(scores@[ia]) <= total_order_key_spec(scores@[ib]) by {
                lemma_distribution_increasing(d, sorted@.len() as int, a, b);
                let ia = lemma_ms_index_source(sorted@, pairs_view, d[a] as int);
                let ib = lemma_ms_index_source(sorted@, pairs_view, d[b] as int);
                assert(net_equal(self.networks@[a], sorted@[d[a] as int].1));
                assert(net_equal(self.networks@[b], sorted@[d[b] as int].1));
                assert(sorted@[d[a] as int].0 <= sorted@[d[b] as int].0);
                assert(pairs_view[ia].1 == old_nets[ia]);
                assert(pairs_view[ib].1 == old_nets[ib]);
                assert(net_equal(self.networks@[a], old_nets[ia]));
                assert(net_equal(self.networks@[b], old_nets[ib]));
                assert(total_order_key_spec(scores@[ia]) == sorted@[d[a] as int].0);
                assert(total_order_key_spec(scores@[ib]) == sorted@[d[b] as int].0);
            }
            // the two best survive: ranks zero and one of the sorted ranking
            // came from two distinct original slots, and every other slot's
            // score is at least rank one's
            let two = lemma_ms_two_sources(sorted@, pairs_view, 0, 1);
            let p0 = two.0;
            let p1 = two.1;
            assert(pairs_view[p0] == sorted@[0]);
            assert(pairs_view[p1] == sorted@[1]);
            assert(net_equal(self.networks@[0], old_nets[p0]));
            assert(net_equal(self.networks@[1], old_nets[p1]));
            assert(total_order_key_spec(scores@[p0]) <= total_order_key_spec(scores@[p1]));
            assert forall|j: int|
                0 <= j < scores@.len() && j != p0 && j != p1 implies total_order_key_spec(
                scores@[p1],
            ) <= total_order_key_spec(#[trigger] scores@[j]) by {
                let spots = lemma_ms_two_sources(pairs_view, sorted@, p0, j);
                let qa = spots.0;
                let qb = spots.1;
                assert(sorted@[qa] == pairs_view[p0]);
                assert(sorted@[qb] == pairs_view[j]);
                if qb >= 1 {
                    assert(sorted@[1].0 <= sorted@[qb].0);
                } else {
                    // rank zero holds this slot's pair, so another copy of
                    // that pair sits at or past rank one
                    assert(qa >= 1);
                    assert(sorted@[1].0 <= sorted@[qa].0);
                    assert(sorted@[qa].0 == sorted@[0].0);
                    assert(sorted@[0].0 == pairs_view[j].0);
                }
                assert(total_order_key_spec(scores@[j]) == pairs_view[j].0);
            }
        }
    }
}

/// Producing networks from parent networks: what a population of an
/// evolutionary environment must offer.
pub trait GeneticNetwork: Sized {
    /// Whether a value is a usable genome.
    spec fn genome_ok(&self) -> bool;

    /// Whether two values can be bred with each other.
    spec fn same_species(&self, other: &Self) -> bool;

    /// A child of two parents: uniform crossover picking each gene from the
    /// father with probability `p`, else from the mother.
    fn breed(father: &Self, mother: &Self, p: Chance) -> (r: Self)
        requires
            father.genome_ok(),
            mother.genome_ok(),
            father.same_species(mother),
            p.valid(),
        ensures
            r.genome_ok();

    /// A copy of a parent with each gene, independently with probability `p`,
    /// replaced by a fresh random gene.
    fn mutate(parent: &Self, p: Chance) -> (r: Self)
        requires
            parent.genome_ok(),
            p.valid(),
        ensures
            r.genome_ok();
}

impl GeneticNetwork for Network {
    open spec fn genome_ok(&self) -> bool {
        self.wf() && self.weights_bounded()
    }

    open spec fn same_species(&self, other: &Self) -> bool {
        self.layers_spec() == other.layers_spec()
    }

    fn breed(father: &Self, mother: &Self, p: Chance) -> (r: Self) {
        Network::breed(father, mother, p)
    }

    fn mutate(parent: &Self, p: Chance) -> (r: Self) {
        Network::mutate(parent, p)
    }
}

} // verus!
