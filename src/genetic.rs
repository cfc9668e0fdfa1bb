//! The genetic algorithm over a population of networks: fitness scoring,
//! a stable sort by fitness, and reproduction from the fitter half.
use crate::codec::{decode, flat_network, synapse_count, ModelError};
use crate::network::{arch, mutated_network, network_output, traded_network, Layers, Network};
use crate::neuron::{
    is_initial, mutated_layer, mutated_node, traded_layer, traded_node, Config, MAX_WIDTH,
};
use vstd::arithmetic::div_mod::lemma_fundamental_div_mod_converse;
use vstd::prelude::*;

verus! {

/// Bit `i` (from the least significant) of `a`.
pub open spec fn bit_at(a: u8, i: nat) -> u8 {
    (a >> (i as u8)) & 1u8
}

/// The number of the `k` lowest bit places at which `a` and `b` agree.
pub open spec fn matching_below(a: u8, b: u8, k: nat) -> nat
    decreases k,
{
    if k == 0 {
        0
    } else {
        matching_below(a, b, (k - 1) as nat) + if bit_at(a, (k - 1) as nat) == bit_at(b, (k - 1) as nat) {
            1nat
        } else {
            0nat
        }
    }
}

/// The number of bit places at which two bytes agree.
pub open spec fn matching_bits(a: u8, b: u8) -> nat {
    matching_below(a, b, 8)
}

/// Matching bits over the first `n` bytes of two buffers.
pub open spec fn matching_prefix(out: Seq<u8>, expected: Seq<u8>, n: nat) -> nat
    decreases n,
{
    if n == 0 {
        0
    } else {
        matching_prefix(out, expected, (n - 1) as nat) + matching_bits(out[n - 1], expected[n - 1])
    }
}

/// The score of one output against the expected one: the matching bits over
/// the bytes that both have.
pub open spec fn pair_score(out: Seq<u8>, expected: Seq<u8>) -> nat {
    matching_prefix(out, expected, if out.len() < expected.len() { out.len() } else { expected.len() })
}

/// The fitness of a network on a data set: the matching output bits, summed
/// over every (input, expected output) pair.
pub open spec fn fitness(layers: Layers, data: Seq<(Vec<u8>, Vec<u8>)>, thresh: i64) -> nat
    decreases data.len(),
{
    if data.len() == 0 {
        0
    } else {
        fitness(layers, data.drop_last(), thresh) + pair_score(
            network_output(layers, data.last().0@, thresh),
            data.last().1@,
        )
    }
}

/// The number of bits in a network's output buffer.
pub open spec fn output_bits(net: Network) -> nat {
    8 * ((net.output_width() + 7) / 8)
}

/// `net` can be scored on `data`: it is well formed, every input is wide
/// enough for it, and the largest possible score fits in a `u64`.
pub open spec fn can_score(net: Network, data: Seq<(Vec<u8>, Vec<u8>)>) -> bool {
    &&& net.wf()
    &&& forall|i: int| 0 <= i < data.len() ==> net.num_inputs <= 8 * (#[trigger] data[i]).0@.len()
    &&& data.len() * output_bits(net) <= u64::MAX
}

/// Place `i` ranks before place `j`: a higher score, or an equal score and
/// an earlier place.
pub open spec fn ranks_before(scores: Seq<u64>, i: int, j: int) -> bool {
    scores[i] > scores[j] || (scores[i] == scores[j] && i < j)
}

/// `order` lists every place of `scores` once, from the highest score down,
/// equal scores in the order they came in.
pub open spec fn is_fitness_order(scores: Seq<u64>, order: Seq<int>) -> bool {
    &&& order.len() == scores.len()
    &&& forall|k: int| 0 <= k < order.len() ==> 0 <= #[trigger] order[k] < scores.len()
    &&& forall|k1: int, k2: int|
        0 <= k1 < k2 < order.len() ==> ranks_before(scores, #[trigger] order[k1], #[trigger] order[k2])
}

/// The items of `s` in the order that `order` lists their places.
pub open spec fn reorder<T>(s: Seq<T>, order: Seq<int>) -> Seq<T> {
    Seq::new(order.len(), |k: int| s[order[k]])
}

/// The fitness of each network of a population.
pub open spec fn scores_of(pop: Seq<Network>, data: Seq<(Vec<u8>, Vec<u8>)>, thresh: i64) -> Seq<u64> {
    Seq::new(pop.len(), |i: int| fitness(pop[i]@, data, thresh) as u64)
}

/// `after` is `before` sorted by `scores`: highest first, ties in the order
/// they came in.
pub open spec fn sorted_by(before: Seq<Network>, scores: Seq<u64>, after: Seq<Network>) -> bool {
    exists|order: Seq<int>| is_fitness_order(scores, order) && after == reorder(before, order)
}

proof fn lemma_matching_below_le(a: u8, b: u8, k: nat)
    ensures
        matching_below(a, b, k) <= k,
    decreases k,
{
    if k > 0 {
        lemma_matching_below_le(a, b, (k - 1) as nat);
    }
}

proof fn lemma_matching_prefix_le(out: Seq<u8>, expected: Seq<u8>, n: nat)
    ensures
        matching_prefix(out, expected, n) <= 8 * n,
    decreases n,
{
    if n > 0 {
        lemma_matching_prefix_le(out, expected, (n - 1) as nat);
        lemma_matching_below_le(out[n - 1], expected[n - 1], 8);
    }
}

/// The score of one pair is at most the number of bits of the output.
pub proof fn lemma_pair_score_bound(out: Seq<u8>, expected: Seq<u8>)
    ensures
        pair_score(out, expected) <= 8 * out.len(),
{
    let n = if out.len() < expected.len() {
        out.len()
    } else {
        expected.len()
    };
    lemma_matching_prefix_le(out, expected, n);
}

/// Fitness bound: a network's fitness on a data set is at most the number of
/// pairs times the number of bits of its output.
pub proof fn lemma_fitness_bound(net: Network, data: Seq<(Vec<u8>, Vec<u8>)>, thresh: i64)
    requires
        net.wf(),
        forall|i: int| 0 <= i < data.len() ==> net.num_inputs <= 8 * (#[trigger] data[i]).0@.len(),
    ensures
        0 <= fitness(net@, data, thresh) <= data.len() * output_bits(net),
    decreases data.len(),
{
    if data.len() > 0 {
        let d0 = data.drop_last();
        assert(forall|i: int| 0 <= i < d0.len() ==> net.num_inputs <= 8 * (#[trigger] d0[i]).0@.len()) by {
            assert forall|i: int| 0 <= i < d0.len() implies net.num_inputs <= 8 * (#[trigger] d0[i]).0@.len() by {
                assert(d0[i] == data[i]);
            }
        }
        lemma_fitness_bound(net, d0, thresh);
        let out = network_output(net@, data.last().0@, thresh);
        lemma_output_len(net, data.last().0@, thresh);
        lemma_pair_score_bound(out, data.last().1@);
        assert(data.len() * output_bits(net) == d0.len() * output_bits(net) + output_bits(net)) by (nonlinear_arith)
            requires
                data.len() == d0.len() + 1,
        ;
    }
}

/// The output of a well-formed network has one byte per eight output bits,
/// rounded up.
pub proof fn lemma_output_len(net: Network, input: Seq<u8>, thresh: i64)
    requires
        net.wf(),
    ensures
        network_output(net@, input, thresh).len() == (net.output_width() + 7) / 8,
{
    assert(net@.drop_last().len() < net@.len());
}

/// The number of matching bits of two bytes.
fn count_matching(a: u8, b: u8) -> (r: u64)
    ensures
        r == matching_bits(a, b),
{
    let mut r: u64 = 0;
    let mut i: u8 = 0;
    while i < 8
        invariant
            i <= 8,
            r == matching_below(a, b, i as nat),
            r <= i,
        decreases 8 - i,
    {
        if (a >> i) & 1u8 == (b >> i) & 1u8 {
            r = r + 1;
        }
        i = i + 1;
    }
    r
}

/// The fitness of `pred` on one (input, expected output) pair.
pub fn single_test(pred: &Network, game: &(Vec<u8>, Vec<u8>), cfg: &Config) -> (r: u64)
    requires
        pred.wf(),
        pred.num_inputs <= 8 * game.0@.len(),
    ensures
        r == pair_score(network_output(pred@, game.0@, cfg.activation_thresh), game.1@),
{
    let res = pred.result(&game.0, cfg);
    let expected = &game.1;
    let n = if res.len() < expected.len() {
        res.len()
    } else {
        expected.len()
    };
    let mut sum: u64 = 0;
    let mut j: usize = 0;
    while j < n
        invariant
            n <= res@.len(),
            n <= expected@.len(),
            n == res@.len() || n == expected@.len(),
            res@.len() <= MAX_WIDTH,
            j <= n,
            sum == matching_prefix(res@, expected@, j as nat),
            sum <= 8 * j,
        decreases n - j,
    {
        let m = count_matching(res[j], expected[j]);
        proof {
            lemma_matching_below_le(res@[j as int], expected@[j as int], 8);
        }
        sum = sum + m;
        j += 1;
    }
    sum
}

/// The fitness of `pred` on the whole data set.
pub fn test_all(pred: &Network, data_set: &Vec<(Vec<u8>, Vec<u8>)>, cfg: &Config) -> (r: u64)
    requires
        can_score(*pred, data_set@),
    ensures
        r == fitness(pred@, data_set@, cfg.activation_thresh),
{
    let mut sum: u64 = 0;
    let mut i: usize = 0;
    while i < data_set.len()
        invariant
            can_score(*pred, data_set@),
            i <= data_set@.len(),
            sum == fitness(pred@, data_set@.take(i as int), cfg.activation_thresh),
        decreases data_set@.len() - i,
    {
        let s = single_test(pred, &data_set[i], cfg);
        proof {
            let d = data_set@.take(i + 1);
            assert(d.drop_last() =~= data_set@.take(i as int));
            assert forall|q: int| 0 <= q < d.len() implies pred.num_inputs <= 8 * (#[trigger] d[q]).0@.len() by {
                assert(d[q] == data_set@[q]);
            }
            lemma_fitness_bound(*pred, d, cfg.activation_thresh);
            assert(d.len() * output_bits(*pred) <= data_set@.len() * output_bits(*pred)) by (nonlinear_arith)
                requires
                    d.len() <= data_set@.len(),
            ;
        }
        sum = sum + s;
        i += 1;
    }
    assert(data_set@.take(data_set@.len() as int) =~= data_set@);
    sum
}

/// The places a vector of indices lists.
pub open spec fn places(v: Seq<usize>) -> Seq<int> {
    v.map_values(|i: usize| i as int)
}

/// The places of `scores` from the highest score down; equal scores keep
/// the order they came in.
pub fn fitness_order(scores: &Vec<u64>) -> (order: Vec<usize>)
    ensures
        is_fitness_order(scores@, places(order@)),
{
    let n = scores.len();
    let mut order: Vec<usize> = Vec::new();
    let mut i: usize = 0;
    while i < n
        invariant
            n == scores@.len(),
            i <= n,
            order@.len() == i,
            forall|k: int| 0 <= k < i ==> #[trigger] order@[k] < i,
            forall|k1: int, k2: int|
                0 <= k1 < k2 < i ==> ranks_before(scores@, #[trigger] order@[k1] as int, #[trigger] order@[k2] as int),
        decreases n - i,
    {
        let mut p = order.len();
        while p > 0 && scores[i] > scores[order[p - 1]]
            invariant
                n == scores@.len(),
                i < n,
                order@.len() == i,
                forall|k: int| 0 <= k < i ==> #[trigger] order@[k] < i,
                p <= i,
                forall|k: int| p <= k < i ==> scores@[i as int] > scores@[#[trigger] order@[k] as int],
            decreases p,
        {
            p -= 1;
        }
        let ghost before = order@;
        order.insert(p, i);
        proof {
            let after = order@;
            assert(after == before.insert(p as int, i));
            assert forall|k: int| 0 <= k < i + 1 implies #[trigger] after[k] < i + 1 by {
                if k < p {
                    assert(after[k] == before[k]);
                } else if k > p {
                    assert(after[k] == before[k - 1]);
                }
            }
            assert forall|k1: int, k2: int| 0 <= k1 < k2 < i + 1 implies ranks_before(
                scores@,
                #[trigger] after[k1] as int,
                #[trigger] after[k2] as int,
            ) by {
                if k1 < p && k2 < p {
                    assert(after[k1] == before[k1] && after[k2] == before[k2]);
                } else if k1 < p && k2 == p {
                    assert(after[k1] == before[k1]);
                    assert(scores@[i as int] <= scores@[before[p - 1] as int]);
                    if k1 < p - 1 {
                        assert(ranks_before(scores@, before[k1] as int, before[p - 1] as int));
                    }
                    assert(before[k1] < i);
                } else if k1 < p && k2 > p {
                    assert(after[k1] == before[k1] && after[k2] == before[k2 - 1]);
                } else if k1 == p {
                    assert(after[k2] == before[k2 - 1]);
                } else {
                    assert(after[k1] == before[k1 - 1] && after[k2] == before[k2 - 1]);
                }
            }
        }
        i += 1;
    }
    proof {
        let pl = places(order@);
        assert forall|k1: int, k2: int| 0 <= k1 < k2 < pl.len() implies ranks_before(
            scores@,
            #[trigger] pl[k1],
            #[trigger] pl[k2],
        ) by {
            assert(ranks_before(scores@, order@[k1] as int, order@[k2] as int));
        }
    }
    order
}

/// Sorts `pop` by `scores` (the score of each network, at its place): the
/// highest first, equal scores in the order they came in. Returns the places
/// the sorted networks came from.
pub fn sort_by_fitness(pop: &mut Vec<Network>, scores: &Vec<u64>) -> (order: Vec<usize>)
    requires
        old(pop)@.len() == scores@.len(),
    ensures
        is_fitness_order(scores@, places(order@)),
        final(pop)@ == reorder(old(pop)@, places(order@)),
{
    let order = fitness_order(scores);
    let ghost pl = places(order@);
    let ghost orig = pop@;
    let n = pop.len();
    let mut sorted: Vec<Network> = Vec::new();
    let mut k: usize = 0;
    while k < n
        invariant
            n == orig.len(),
            n == order@.len(),
            pl == places(order@),
            is_fitness_order(scores@, pl),
            pop@.len() == n,
            k <= n,
            sorted@ == reorder(orig, pl.take(k as int)),
            forall|i: int|
                0 <= i < n && (forall|q: int| 0 <= q < k ==> #[trigger] pl[q] != i) ==> #[trigger] pop@[i] == orig[i],
        decreases n - k,
    {
        let idx = order[k];
        assert(pl[k as int] == idx as int);
        assert forall|q: int| 0 <= q < k implies #[trigger] pl[q] != idx as int by {
            assert(ranks_before(scores@, pl[q], pl[k as int]));
        }
        let mut x = Network { layers: Vec::new(), num_inputs: 0 };
        let ghost p0 = pop@;
        pop.set_and_swap(idx, &mut x);
        assert(x == orig[idx as int]);
        sorted.push(x);
        assert(sorted@ =~= reorder(orig, pl.take(k + 1)));
        assert forall|i: int|
            0 <= i < n && (forall|q: int| 0 <= q < k + 1 ==> #[trigger] pl[q] != i) implies #[trigger] pop@[i]
            == orig[i] by {
            assert(pl[k as int] != i);
            assert(pop@[i] == p0[i]);
        }
        k += 1;
    }
    assert(pl.take(n as int) =~= pl);
    *pop = sorted;
    order
}

/// Scores every network of `pop` on `data_set`, then sorts `pop` by fitness:
/// the fittest first, equal fitness in the order they came in. Returns the
/// scores in the new order.
pub fn test_and_sort(pop: &mut Vec<Network>, data_set: &Vec<(Vec<u8>, Vec<u8>)>, cfg: &Config) -> (r: Vec<u64>)
    requires
        forall|i: int| 0 <= i < old(pop)@.len() ==> can_score(#[trigger] old(pop)@[i], data_set@),
    ensures
        sorted_by(old(pop)@, scores_of(old(pop)@, data_set@, cfg.activation_thresh), final(pop)@),
        r@ == scores_of(final(pop)@, data_set@, cfg.activation_thresh),
        forall|k1: int, k2: int| 0 <= k1 < k2 < r@.len() ==> r@[k1] >= r@[k2],
        final(pop)@.len() == old(pop)@.len(),
        forall|i: int| 0 <= i < final(pop)@.len() ==> can_score(#[trigger] final(pop)@[i], data_set@),
        uniform_arch(old(pop)@) ==> uniform_arch(final(pop)@),
{
    let ghost orig = pop@;
    let mut scores: Vec<u64> = Vec::new();
    let mut i: usize = 0;
    while i < pop.len()
        invariant
            pop@ == orig,
            forall|q: int| 0 <= q < orig.len() ==> can_score(#[trigger] orig[q], data_set@),
            i <= orig.len(),
            scores@ == scores_of(orig, data_set@, cfg.activation_thresh).take(i as int),
        decreases orig.len() - i,
    {
        let net = &pop[i];
        let s = test_all(net, data_set, cfg);
        assert(s == scores_of(orig, data_set@, cfg.activation_thresh)[i as int]);
        scores.push(s);
        assert(scores@ =~= scores_of(orig, data_set@, cfg.activation_thresh).take(i + 1));
        i += 1;
    }
    assert(scores@ =~= scores_of(orig, data_set@, cfg.activation_thresh));
    let order = sort_by_fitness(pop, &scores);
    let ghost pl = places(order@);
    let mut r: Vec<u64> = Vec::new();
    let mut k: usize = 0;
    while k < order.len()
        invariant
            pl == places(order@),
            is_fitness_order(scores@, pl),
            pop@ == reorder(orig, pl),
            scores@ == scores_of(orig, data_set@, cfg.activation_thresh),
            k <= order@.len(),
            r@ == scores_of(pop@, data_set@, cfg.activation_thresh).take(k as int),
        decreases order@.len() - k,
    {
        let idx = order[k];
        assert(pl[k as int] == idx as int);
        r.push(scores[idx]);
        assert(r@ =~= scores_of(pop@, data_set@, cfg.activation_thresh).take(k + 1));
        k += 1;
    }
    assert(r@ =~= scores_of(pop@, data_set@, cfg.activation_thresh));
    assert(sorted_by(orig, scores_of(orig, data_set@, cfg.activation_thresh), pop@));
    assert forall|q: int| 0 <= q < pop@.len() implies can_score(#[trigger] pop@[q], data_set@) by {
        assert(pop@[q] == orig[pl[q]]);
    }
    assert forall|k1: int, k2: int| 0 <= k1 < k2 < r@.len() implies r@[k1] >= r@[k2] by {
        assert(ranks_before(scores@, pl[k1], pl[k2]));
        assert(pop@[k1] == orig[pl[k1]] && pop@[k2] == orig[pl[k2]]);
    }
    proof {
        if uniform_arch(orig) {
            assert forall|q: int| 0 <= q < pop@.len() implies (#[trigger] pop@[q]).wf() && pop@[q].widths()
                == pop@[0].widths() by {
                assert(pop@[q] == orig[pl[q]]);
                assert(pop@[0] == orig[pl[0]]);
            }
        }
    }
    r
}

proof fn lemma_places_lower(order: Seq<int>, n: int, k: int)
    requires
        order.len() == n,
        0 <= k < n,
        forall|q: int| 0 <= q < n ==> 0 <= #[trigger] order[q] < n,
        forall|q: int| 0 <= q < n - 1 ==> #[trigger] order[q] < order[q + 1],
    ensures
        order[k] >= k,
    decreases k,
{
    if k > 0 {
        lemma_places_lower(order, n, k - 1);
    }
}

proof fn lemma_places_upper(order: Seq<int>, n: int, k: int)
    requires
        order.len() == n,
        0 <= k < n,
        forall|q: int| 0 <= q < n ==> 0 <= #[trigger] order[q] < n,
        forall|q: int| 0 <= q < n - 1 ==> #[trigger] order[q] < order[q + 1],
    ensures
        order[k] <= k,
    decreases n - k,
{
    if k < n - 1 {
        lemma_places_upper(order, n, k + 1);
    }
}

/// Sort stability: sorting by fitness again what a sort by fitness produced
/// changes nothing, so networks of equal fitness keep their relative order
/// however often the sort is run.
pub proof fn lemma_sort_stable(
    p0: Seq<Network>,
    p1: Seq<Network>,
    p2: Seq<Network>,
    data: Seq<(Vec<u8>, Vec<u8>)>,
    thresh: i64,
)
    requires
        sorted_by(p0, scores_of(p0, data, thresh), p1),
        sorted_by(p1, scores_of(p1, data, thresh), p2),
    ensures
        p2 == p1,
{
    let s0 = scores_of(p0, data, thresh);
    let s1 = scores_of(p1, data, thresh);
    let o1 = choose|order: Seq<int>| is_fitness_order(s0, order) && p1 == reorder(p0, order);
    let o2 = choose|order: Seq<int>| is_fitness_order(s1, order) && p2 == reorder(p1, order);
    let n = p1.len() as int;
    assert forall|k1: int, k2: int| 0 <= k1 < k2 < n implies s1[k1] >= s1[k2] by {
        assert(ranks_before(s0, o1[k1], o1[k2]));
        assert(p1[k1] == p0[o1[k1]] && p1[k2] == p0[o1[k2]]);
    }
    assert forall|k: int| 0 <= k < n - 1 implies #[trigger] o2[k] < o2[k + 1] by {
        assert(ranks_before(s1, o2[k], o2[k + 1]));
        if o2[k] > o2[k + 1] {
            assert(s1[o2[k + 1]] >= s1[o2[k]]);
        }
    }
    assert forall|k: int| 0 <= k < n implies #[trigger] o2[k] == k by {
        lemma_places_lower(o2, n, k);
        lemma_places_upper(o2, n, k);
    }
    assert(p2 =~= p1);
}

/// Two stacks of layers of the same shape: as many layers, nodes and
/// synapses at every place.
pub open spec fn same_shape(a: Layers, b: Layers) -> bool {
    &&& a.len() == b.len()
    &&& forall|l: int| 0 <= l < a.len() ==> (#[trigger] a[l]).len() == b[l].len()
    &&& forall|l: int, j: int| 0 <= l < a.len() && 0 <= j < a[l].len() ==> (#[trigger] a[l][j]).len() == b[l][j].len()
}

/// Every network of `pop` is well formed, with the widths of the first.
pub open spec fn uniform_arch(pop: Seq<Network>) -> bool {
    forall|i: int| 0 <= i < pop.len() ==> (#[trigger] pop[i]).wf() && pop[i].widths() == pop[0].widths()
}

/// Two networks with the same synapses and input width.
pub open spec fn same_network(a: Network, b: Network) -> bool {
    a@ == b@ && a.num_inputs == b.num_inputs
}

/// `ca` and `cb` are a possible outcome of crossing copies of `pa` and `pb`,
/// then mutating each.
pub open spec fn offspring(pa: Network, pb: Network, ca: Network, cb: Network, cfg: Config) -> bool {
    &&& ca.num_inputs == pa.num_inputs
    &&& cb.num_inputs == pb.num_inputs
    &&& exists|ta: Layers, tb: Layers|
        traded_network(pa@, pb@, ta, tb, cfg.trait_swap_chance) && mutated_network(ta, ca@, cfg)
            && mutated_network(tb, cb@, cfg)
}

/// The pair of parents that group `g` of a population of `n` breeds from:
/// the pairs of the fitter half, `(0, 1)`, `(2, 3)`, ..., taken in turn.
pub open spec fn pair_of(g: int, n: int) -> int {
    g % (n / 4)
}

/// Group `g` of a new population: from place `4g`, a copy of the parents
/// of pair `p = pair_of(g, n)`, at places `2p` and `2p + 1`, then their two
/// offspring, as many of the four as the population has room for.
pub open spec fn group_ok(old: Seq<Network>, new: Seq<Network>, g: int, cfg: Config) -> bool {
    let p = pair_of(g, old.len() as int);
    &&& same_network(new[4 * g], old[2 * p])
    &&& 4 * g + 1 < old.len() ==> same_network(new[4 * g + 1], old[2 * p + 1])
    &&& exists|ca: Network, cb: Network|
        #[trigger] offspring(old[2 * p], old[2 * p + 1], ca, cb, cfg) && (4 * g + 2 < old.len() ==> new[4 * g
            + 2] == ca) && (4 * g + 3 < old.len() ==> new[4 * g + 3] == cb)
}

/// `new` is bred from the sorted population `old`: as many networks, in
/// groups of four, each from a pair of parents of the fitter half. A
/// population of fewer than four, whose fitter half holds no pair, stays as
/// it is.
pub open spec fn bred_from(old: Seq<Network>, new: Seq<Network>, cfg: Config) -> bool {
    &&& new.len() == old.len()
    &&& old.len() < 4 ==> new == old
    &&& old.len() >= 4 ==> forall|g: int| 0 <= g && 4 * g < old.len() ==> #[trigger] group_ok(old, new, g, cfg)
}

proof fn lemma_traded_shape(a: Layers, b: Layers, a2: Layers, b2: Layers, chance: u32)
    requires
        traded_network(a, b, a2, b2, chance),
        same_shape(a, b),
    ensures
        same_shape(a, a2),
        same_shape(b, b2),
{
    assert forall|l: int, j: int| 0 <= l < a.len() && 0 <= j < a[l].len() implies (#[trigger] a[l][j]).len()
        == a2[l][j].len() && b[l][j].len() == b2[l][j].len() by {
        assert(traded_layer(a[l], b[l], a2[l], b2[l], chance));
        assert(traded_node(a[l][j], b[l][j], a2[l][j], b2[l][j], chance));
    }
    assert forall|l: int, j: int| 0 <= l < b.len() && 0 <= j < b[l].len() implies (#[trigger] b[l][j]).len()
        == b2[l][j].len() by {
        assert(a[l][j].len() == b[l][j].len());
    }
    assert forall|l: int| 0 <= l < a.len() implies (#[trigger] a[l]).len() == a2[l].len() && b[l].len()
        == b2[l].len() by {
        assert(traded_layer(a[l], b[l], a2[l], b2[l], chance));
    }
    assert forall|l: int| 0 <= l < b.len() implies (#[trigger] b[l]).len() == b2[l].len() by {
        assert(a[l].len() == b[l].len());
    }
}

proof fn lemma_mutated_shape(s: Layers, t: Layers, cfg: Config)
    requires
        mutated_network(s, t, cfg),
    ensures
        same_shape(s, t),
{
    assert forall|l: int, j: int| 0 <= l < s.len() && 0 <= j < s[l].len() implies (#[trigger] s[l][j]).len()
        == t[l][j].len() by {
        assert(mutated_layer(s[l], t[l], cfg));
        assert(mutated_node(s[l][j], t[l][j], cfg));
    }
}

proof fn lemma_shape_wf(x: Network, y: Network)
    requires
        x.wf(),
        y.num_inputs == x.num_inputs,
        same_shape(x@, y@),
    ensures
        y.wf(),
        y.widths() == x.widths(),
{
    assert(y.widths() =~= x.widths());
    let w = x.widths();
    assert forall|l: int| 0 <= l < y@.len() implies (#[trigger] y@[l]).len() == w[l + 1] by {
        assert(x@[l].len() == w[l + 1]);
    }
    assert forall|l: int, j: int| 0 <= l < y@.len() && 0 <= j < y@[l].len() implies (
    #[trigger] y@[l][j]).len() == w[l] by {
        assert(x@[l][j].len() == w[l]);
    }
}

/// Refills the population from its fitter half (it is expected sorted,
/// fittest first); the other half is dropped. The fitter half is split into
/// the pairs `(0, 1)`, `(2, 3)`, ..., and the new population is built in
/// groups of four, each from the next pair in turn: copies of the two
/// parents, then two children, made by crossing copies of the two and
/// mutating each. The last group is cut at the population's size, which is
/// kept. A population of fewer than four stays as it is.
pub fn reproduce(pop: &mut Vec<Network>, cfg: &Config)
    requires
        cfg.wf(),
    ensures
        bred_from(old(pop)@, final(pop)@, *cfg),
        uniform_arch(old(pop)@) ==> uniform_arch(final(pop)@),
        old(pop)@.len() > 0 ==> final(pop)@[0].widths() == old(pop)@[0].widths(),
{
    let n = pop.len();
    if n < 4 {
        return;
    }
    let ghost old_pop = pop@;
    let pairs = n / 4;
    let mut next: Vec<Network> = Vec::new();
    let mut g: usize = 0;
    let mut p: usize = 0;
    let ghost mut rounds: int = 0;
    while next.len() < n
        invariant
            cfg.wf(),
            n == old_pop.len(),
            n >= 4,
            pairs == n / 4,
            p < pairs,
            rounds >= 0,
            g == rounds * pairs + p,
            pop@ == old_pop,
            next@.len() == if 4 * g < n {
                4 * g
            } else {
                n as int
            },
            4 * g <= n + 3,
            forall|q: int| 0 <= q < g ==> #[trigger] group_ok(old_pop, next@, q, *cfg),
            uniform_arch(old_pop) ==> forall|i: int|
                0 <= i < next@.len() ==> (#[trigger] next@[i]).wf() && next@[i].widths() == old_pop[0].widths(),
            next@.len() > 0 ==> next@[0].widths() == old_pop[0].widths() || !old_pop[0].wf(),
            next@.len() > 0 ==> same_network(next@[0], old_pop[0]),
        decreases n + 4 - 4 * g,
    {
        let ghost prev = next@;
        proof {
            lemma_fundamental_div_mod_converse(g as int, pairs as int, rounds, p as int);
            assert(pair_of(g as int, n as int) == p);
        }
        let pa = &pop[2 * p];
        let pb = &pop[2 * p + 1];
        let mut ca = pa.duplicate();
        let mut cb = pb.duplicate();
        ca.random_trade(&mut cb, cfg);
        let ghost ta = ca@;
        let ghost tb = cb@;
        ca.mutate(cfg);
        cb.mutate(cfg);
        assert(offspring(*pa, *pb, ca, cb, *cfg));
        let ghost (ca0, cb0) = (ca, cb);
        proof {
            if uniform_arch(old_pop) {
                assert(old_pop[2 * p as int].wf() && old_pop[2 * p + 1].wf());
                assert(same_shape(pa@, pb@));
                lemma_traded_shape(pa@, pb@, ta, tb, cfg.trait_swap_chance);
                lemma_mutated_shape(ta, ca@, *cfg);
                lemma_mutated_shape(tb, cb@, *cfg);
                assert(same_shape(pa@, ca@));
                assert(same_shape(pb@, cb@));
                lemma_shape_wf(*pa, ca);
                lemma_shape_wf(*pb, cb);
            }
        }
        next.push(pa.duplicate());
        if next.len() < n {
            next.push(pb.duplicate());
        }
        if next.len() < n {
            next.push(ca);
        }
        if next.len() < n {
            next.push(cb);
        }
        proof {
            let cur = next@;
            assert(forall|k: int| 0 <= k < prev.len() ==> cur[k] == prev[k]);
            assert(4 * g < n);
            assert(prev.len() == 4 * g);
            assert(same_network(cur[4 * g as int], old_pop[2 * p as int]));
            assert(4 * g + 1 < n ==> same_network(cur[4 * g + 1], old_pop[2 * p + 1]));
            assert(4 * g + 2 < n ==> cur[4 * g + 2] == ca0);
            assert(4 * g + 3 < n ==> cur[4 * g + 3] == cb0);
            assert(offspring(old_pop[2 * p as int], old_pop[2 * p + 1], ca0, cb0, *cfg));
            assert(group_ok(old_pop, cur, g as int, *cfg));
            assert forall|q: int| 0 <= q <= g implies #[trigger] group_ok(old_pop, cur, q, *cfg) by {
                let pq = pair_of(q, n as int);
                if q < g {
                    assert(group_ok(old_pop, prev, q, *cfg));
                    let (xa, xb) = choose|xa: Network, xb: Network|
                        #[trigger] offspring(old_pop[2 * pq], old_pop[2 * pq + 1], xa, xb, *cfg) && (4 * q + 2 < n
                            ==> prev[4 * q + 2] == xa) && (4 * q + 3 < n ==> prev[4 * q + 3] == xb);
                    assert(offspring(old_pop[2 * pq], old_pop[2 * pq + 1], xa, xb, *cfg));
                } else {
                    assert(offspring(old_pop[2 * pq], old_pop[2 * pq + 1], ca0, cb0, *cfg));
                }
            }
        }
        g += 1;
        if p + 1 == pairs {
            p = 0;
            proof {
                rounds = rounds + 1;
                assert(rounds * pairs == (rounds - 1) * pairs + pairs) by (nonlinear_arith);
            }
        } else {
            p = p + 1;
        }
    }
    *pop = next;
}

proof fn lemma_can_score_same_widths(a: Network, b: Network, data: Seq<(Vec<u8>, Vec<u8>)>)
    requires
        can_score(a, data),
        b.wf(),
        b.widths() == a.widths(),
    ensures
        can_score(b, data),
{
    let n = a@.len();
    assert(a.widths()[0] == a.num_inputs && b.widths()[0] == b.num_inputs);
    assert(a.widths()[n as int] == a.output_width());
    assert(b.widths()[n as int] == b.output_width());
}

/// A population of `pop_size` networks of the architecture `num_inputs`,
/// `layer_sizes`, `num_outputs`, each drawn at random.
pub fn gen_pop(pop_size: usize, layer_sizes: &Vec<usize>, num_inputs: usize, num_outputs: usize) -> (r: Vec<
    Network,
>)
    requires
        num_inputs <= MAX_WIDTH,
        num_outputs <= MAX_WIDTH,
        forall|i: int| 0 <= i < layer_sizes@.len() ==> #[trigger] layer_sizes@[i] <= MAX_WIDTH,
    ensures
        r@.len() == pop_size,
        uniform_arch(r@),
        forall|i: int| 0 <= i < pop_size ==> (#[trigger] r@[i]).widths() == arch(layer_sizes@, num_inputs, num_outputs),
        forall|i: int, l: int, j: int, k: int|
            0 <= i < pop_size && 0 <= l < r@[i]@.len() && 0 <= j < r@[i]@[l].len() && 0 <= k < r@[i]@[l][j].len()
                ==> is_initial(#[trigger] r@[i]@[l][j][k]),
{
    let mut pop: Vec<Network> = Vec::new();
    let mut i: usize = 0;
    while i < pop_size
        invariant
            num_inputs <= MAX_WIDTH,
            num_outputs <= MAX_WIDTH,
            forall|q: int| 0 <= q < layer_sizes@.len() ==> #[trigger] layer_sizes@[q] <= MAX_WIDTH,
            i <= pop_size,
            pop@.len() == i,
            forall|q: int| 0 <= q < i ==> (#[trigger] pop@[q]).wf() && pop@[q].widths() == arch(layer_sizes@, num_inputs, num_outputs),
            forall|q: int, l: int, j: int, k: int|
                0 <= q < i && 0 <= l < pop@[q]@.len() && 0 <= j < pop@[q]@[l].len() && 0 <= k < pop@[q]@[l][j].len()
                    ==> is_initial(#[trigger] pop@[q]@[l][j][k]),
        decreases pop_size - i,
    {
        pop.push(Network::new_random(layer_sizes, num_inputs, num_outputs));
        i += 1;
    }
    pop
}

/// One generation: `after` is bred from `before` sorted by fitness on `data`.
pub open spec fn generation(before: Seq<Network>, after: Seq<Network>, data: Seq<(Vec<u8>, Vec<u8>)>, cfg: Config) -> bool {
    exists|sorted: Seq<Network>|
        #[trigger] sorted_by(before, scores_of(before, data, cfg.activation_thresh), sorted) && bred_from(
            sorted,
            after,
            cfg,
        )
}

/// `chain` lists the populations of successive generations: each is bred
/// from the one before it.
pub open spec fn is_lineage(chain: Seq<Seq<Network>>, data: Seq<(Vec<u8>, Vec<u8>)>, cfg: Config) -> bool {
    &&& chain.len() >= 1
    &&& forall|k: int| 0 <= k < chain.len() - 1 ==> generation(chain[k], #[trigger] chain[k + 1], data, cfg)
}

/// `new` is reached from `old` by `g` generations.
pub open spec fn evolved(
    old: Seq<Network>,
    new: Seq<Network>,
    g: nat,
    data: Seq<(Vec<u8>, Vec<u8>)>,
    cfg: Config,
) -> bool {
    exists|chain: Seq<Seq<Network>>|
        #[trigger] is_lineage(chain, data, cfg) && chain.len() == g + 1 && chain[0] == old && chain.last() == new
}

/// Runs the genetic algorithm for `generations` rounds of scoring, sorting
/// and reproduction, then scores and sorts once more, so that the fittest
/// network stands first. Returns the final scores, highest first.
pub fn evolve(pop: &mut Vec<Network>, data_set: &Vec<(Vec<u8>, Vec<u8>)>, cfg: &Config, generations: usize) -> (r:
    Vec<u64>)
    requires
        cfg.wf(),
        uniform_arch(old(pop)@),
        old(pop)@.len() > 0 ==> can_score(old(pop)@[0], data_set@),
    ensures
        final(pop)@.len() == old(pop)@.len(),
        uniform_arch(final(pop)@),
        final(pop)@.len() > 0 ==> final(pop)@[0].widths() == old(pop)@[0].widths(),
        exists|last: Seq<Network>|
            #[trigger] evolved(old(pop)@, last, generations as nat, data_set@, *cfg) && sorted_by(
                last,
                scores_of(last, data_set@, cfg.activation_thresh),
                final(pop)@,
            ),
        r@ == scores_of(final(pop)@, data_set@, cfg.activation_thresh),
        forall|k1: int, k2: int| 0 <= k1 < k2 < r@.len() ==> r@[k1] >= r@[k2],
{
    let ghost start = pop@;
    let ghost mut chain: Seq<Seq<Network>> = seq![pop@];
    let ghost n = pop@.len();
    let ghost first = pop@[0];
    let mut i: usize = 0;
    while i < generations
        invariant
            cfg.wf(),
            pop@.len() == n,
            uniform_arch(pop@),
            n > 0 ==> pop@[0].widths() == first.widths(),
            n > 0 ==> can_score(first, data_set@),
            n > 0 ==> first.wf(),
            i <= generations,
            is_lineage(chain, data_set@, *cfg),
            chain.len() == i + 1,
            chain[0] == start,
            chain.last() == pop@,
        decreases generations - i,
    {
        proof {
            assert forall|q: int| 0 <= q < pop@.len() implies can_score(#[trigger] pop@[q], data_set@) by {
                lemma_can_score_same_widths(first, pop@[q], data_set@);
            }
        }
        let ghost mid = pop@;
        test_and_sort(pop, data_set, cfg);
        let ghost sorted = pop@;
        reproduce(pop, cfg);
        proof {
            assert(sorted_by(mid, scores_of(mid, data_set@, cfg.activation_thresh), sorted));
            assert(generation(mid, pop@, data_set@, *cfg));
            let prev = chain;
            chain = chain.push(pop@);
            assert forall|k: int| 0 <= k < chain.len() - 1 implies generation(
                chain[k],
                #[trigger] chain[k + 1],
                data_set@,
                *cfg,
            ) by {
                if k < prev.len() - 1 {
                    assert(chain[k] == prev[k] && chain[k + 1] == prev[k + 1]);
                }
            }
        }
        i += 1;
    }
    proof {
        assert forall|q: int| 0 <= q < pop@.len() implies can_score(#[trigger] pop@[q], data_set@) by {
            lemma_can_score_same_widths(first, pop@[q], data_set@);
        }
    }
    let ghost last = pop@;
    let r = test_and_sort(pop, data_set, cfg);
    assert(is_lineage(chain, data_set@, *cfg));
    assert(evolved(start, last, generations as nat, data_set@, *cfg));
    r
}

/// Reads a model of the architecture `num_inputs`, `layer_sizes`,
/// `num_outputs` from its bytes and evaluates it on `input`. Fails when the
/// bytes do not fit the architecture, or else when the input holds fewer
/// than `num_inputs` bits.
pub fn load_and_predict(
    bytes: &Vec<u8>,
    layer_sizes: &Vec<usize>,
    num_inputs: usize,
    num_outputs: usize,
    input: &Vec<u8>,
    cfg: &Config,
) -> (r: Result<Vec<u8>, ModelError>)
    requires
        num_inputs <= MAX_WIDTH,
        num_outputs <= MAX_WIDTH,
        forall|i: int| 0 <= i < layer_sizes@.len() ==> #[trigger] layer_sizes@[i] <= MAX_WIDTH,
    ensures
        bytes@.len() != 16 * synapse_count(arch(layer_sizes@, num_inputs, num_outputs)) ==> r == Err::<
            Vec<u8>,
            ModelError,
        >(ModelError::WrongLength),
        bytes@.len() == 16 * synapse_count(arch(layer_sizes@, num_inputs, num_outputs)) && 8 * input@.len()
            < num_inputs ==> r == Err::<Vec<u8>, ModelError>(ModelError::InputTooShort),
        bytes@.len() == 16 * synapse_count(arch(layer_sizes@, num_inputs, num_outputs)) && 8 * input@.len()
            >= num_inputs ==> (r matches Ok(out) && exists|net: Network|
            {
                &&& net.wf()
                &&& net.widths() == arch(layer_sizes@, num_inputs, num_outputs)
                &&& flat_network(net@) == decode(bytes@)
                &&& out@ == network_output(net@, input@, cfg.activation_thresh)
            }),
{
    let net = match Network::from_bytes(bytes, layer_sizes, num_inputs, num_outputs) {
        Ok(net) => net,
        Err(e) => return Err(e),
    };
    if input.len() < num_inputs / 8 || (input.len() == num_inputs / 8 && num_inputs % 8 != 0) {
        return Err(ModelError::InputTooShort);
    }
    assert(net.widths()[0] == num_inputs);
    let out = net.result(input, cfg);
    Ok(out)
}

} // verus!
