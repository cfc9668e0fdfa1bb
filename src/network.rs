//! A network: a stack of fully connected layers, evaluated one after another.
use crate::neuron::{
    is_initial, layer_output, mutated_layer, mutated_node, traded_layer, value, within, Config, NeuronConnection,
    NeuronConnectionMap, MAX_WIDTH,
};
use vstd::prelude::*;

verus! {

/// The synapses of a network: layer, then node, then synapse.
pub type Layers = Seq<Seq<Seq<NeuronConnection>>>;

/// The widths of an architecture: the input width, each hidden layer's node
/// count, then the output width.
pub open spec fn arch(layer_sizes: Seq<usize>, num_inputs: usize, num_outputs: usize) -> Seq<nat> {
    seq![num_inputs as nat] + layer_sizes.map_values(|w: usize| w as nat) + seq![num_outputs as nat]
}

/// `layers` is shaped by `widths`: layer `l` has `widths[l + 1]` nodes of
/// `widths[l]` synapses each.
pub open spec fn has_shape(layers: Layers, widths: Seq<nat>) -> bool {
    &&& widths.len() == layers.len() + 1
    &&& forall|l: int| 0 <= l < layers.len() ==> (#[trigger] layers[l]).len() == widths[l + 1]
    &&& forall|l: int, j: int|
        0 <= l < layers.len() && 0 <= j < layers[l].len() ==> (#[trigger] layers[l][j]).len() == widths[l]
}

/// The output of a network on `input`: each layer's output is the next
/// layer's input.
pub open spec fn network_output(layers: Layers, input: Seq<u8>, thresh: i64) -> Seq<u8>
    decreases layers.len(),
{
    if layers.len() == 0 {
        input
    } else {
        layer_output(layers.last(), network_output(layers.drop_last(), input, thresh), thresh)
    }
}

/// Every node of `t` is a mutation of the one at its place in `s`.
pub open spec fn mutated_network(s: Layers, t: Layers, cfg: Config) -> bool {
    &&& t.len() == s.len()
    &&& forall|l: int| 0 <= l < s.len() ==> mutated_layer(s[l], #[trigger] t[l], cfg)
}

/// `(a2, b2)` is a possible outcome of crossing two networks layer by layer.
pub open spec fn traded_network(a: Layers, b: Layers, a2: Layers, b2: Layers, chance: u32) -> bool {
    &&& a2.len() == a.len()
    &&& b2.len() == b.len()
    &&& forall|l: int| 0 <= l < a.len() && l < b.len() ==> traded_layer(a[l], b[l], #[trigger] a2[l], b2[l], chance)
    &&& forall|l: int| b.len() <= l < a.len() ==> #[trigger] a2[l] == a[l]
    &&& forall|l: int| a.len() <= l < b.len() ==> #[trigger] b2[l] == b[l]
}

/// Determinism: what a network outputs depends on its synapses, the input
/// and the threshold alone. Two evaluations of networks with the same
/// synapses, on the same input, give the same bytes.
pub proof fn lemma_evaluate_deterministic(a: Layers, b: Layers, input: Seq<u8>, thresh: i64, ra: Seq<u8>, rb: Seq<u8>)
    requires
        a == b,
        ra == network_output(a, input, thresh),
        rb == network_output(b, input, thresh),
    ensures
        ra == rb,
{
}

/// A stack of layers; the first reads `num_inputs` bits.
#[derive(Clone, Debug)]
pub struct Network {
    pub layers: Vec<NeuronConnectionMap>,
    pub num_inputs: usize,
}

impl View for Network {
    type V = Layers;

    open spec fn view(&self) -> Layers {
        self.layers@.map_values(|m: NeuronConnectionMap| m@)
    }
}

impl Network {
    /// The widths of the network: its input width, then each layer's node
    /// count.
    pub open spec fn widths(&self) -> Seq<nat> {
        Seq::new(
            self@.len() + 1,
            |l: int|
                if l == 0 {
                    self.num_inputs as nat
                } else {
                    self@[l - 1].len()
                },
        )
    }

    /// Its output width in bits: the last layer's node count.
    pub open spec fn output_width(&self) -> nat {
        self@.last().len()
    }

    /// At least one layer, each node reading every bit of the buffer before
    /// it, and no width over `MAX_WIDTH`.
    pub open spec fn wf(&self) -> bool {
        &&& self@.len() >= 1
        &&& has_shape(self@, self.widths())
        &&& forall|l: int| 0 <= l < self@.len() + 1 ==> #[trigger] self.widths()[l] <= MAX_WIDTH
    }

    /// A copy of the network.
    pub fn duplicate(&self) -> (r: Self)
        ensures
            r@ == self@,
            r.num_inputs == self.num_inputs,
    {
        let mut layers: Vec<NeuronConnectionMap> = Vec::new();
        let mut l: usize = 0;
        while l < self.layers.len()
            invariant
                l <= self.layers@.len(),
                layers@.len() == l,
                forall|k: int| 0 <= k < l ==> (#[trigger] layers@[k])@ == self.layers@[k]@,
            decreases self.layers@.len() - l,
        {
            layers.push(self.layers[l].duplicate());
            l += 1;
        }
        let r = Network { layers, num_inputs: self.num_inputs };
        assert(r@ =~= self@);
        r
    }

    /// A network of the architecture `num_inputs`, `layer_sizes`,
    /// `num_outputs`, every synapse drawn at random.
    pub fn new_random(layer_sizes: &Vec<usize>, num_inputs: usize, num_outputs: usize) -> (r: Self)
        requires
            num_inputs <= MAX_WIDTH,
            num_outputs <= MAX_WIDTH,
            forall|i: int| 0 <= i < layer_sizes@.len() ==> #[trigger] layer_sizes@[i] <= MAX_WIDTH,
        ensures
            r.wf(),
            r.widths() == arch(layer_sizes@, num_inputs, num_outputs),
            forall|l: int, j: int, i: int|
                0 <= l < r@.len() && 0 <= j < r@[l].len() && 0 <= i < r@[l][j].len() ==> is_initial(
                    #[trigger] r@[l][j][i],
                ),
    {
        let ghost widths = arch(layer_sizes@, num_inputs, num_outputs);
        let n = layer_sizes.len();
        let mut layers: Vec<NeuronConnectionMap> = Vec::new();
        let mut prev = num_inputs;
        let mut l: usize = 0;
        while l < n
            invariant
                n == layer_sizes@.len(),
                widths == arch(layer_sizes@, num_inputs, num_outputs),
                widths.len() == n + 2,
                forall|i: int| 0 <= i < n + 2 ==> #[trigger] widths[i] <= MAX_WIDTH,
                l <= n,
                layers@.len() == l,
                prev == widths[l as int],
                forall|k: int| 0 <= k < l ==> (#[trigger] layers@[k])@.len() == widths[k + 1],
                forall|k: int, j: int|
                    0 <= k < l && 0 <= j < layers@[k]@.len() ==> (#[trigger] layers@[k]@[j]).len()
                        == widths[k],
                forall|k: int, j: int, i: int|
                    0 <= k < l && 0 <= j < layers@[k]@.len() && 0 <= i < layers@[k]@[j].len()
                        ==> is_initial(#[trigger] layers@[k]@[j][i]),
            decreases n - l,
        {
            let size = layer_sizes[l];
            assert(size == widths[l + 1]);
            layers.push(NeuronConnectionMap::new_random(size, prev));
            prev = size;
            l += 1;
        }
        assert(num_outputs == widths[n + 1]);
        layers.push(NeuronConnectionMap::new_random(num_outputs, prev));
        let r = Network { layers, num_inputs };
        assert(r.widths() =~= widths);
        r
    }

    /// The network's output on `input`: each layer's output feeds the next,
    /// and the last one's is returned.
    pub fn result(&self, input: &Vec<u8>, cfg: &Config) -> (r: Vec<u8>)
        requires
            self.wf(),
            self.num_inputs <= 8 * input@.len(),
        ensures
            r@ == network_output(self@, input@, cfg.activation_thresh),
            r@.len() == (self.output_width() + 7) / 8,
    {
        let n = self.layers.len();
        assert(self@.len() == n);
        assert(self.widths()[0] == self.num_inputs);
        assert(self@[0] == self.layers@[0]@);
        assert(self.widths()[1] == self@[0].len());
        let mut cur = self.layers[0].layer_activations(input, cfg);
        assert(self@.take(1).drop_last() =~= self@.take(0));
        assert(self@.take(1).last() == self@[0]);
        assert(network_output(self@.take(0), input@, cfg.activation_thresh) == input@);
        let mut l: usize = 1;
        while l < n
            invariant
                self.wf(),
                n == self@.len(),
                1 <= l <= n,
                cur@ == network_output(self@.take(l as int), input@, cfg.activation_thresh),
                cur@.len() == (self@[l - 1].len() + 7) / 8,
            decreases n - l,
        {
            assert(self.widths()[l as int] == self@[l - 1].len());
            assert(self.widths()[l + 1] == self@[l as int].len());
            assert(self@[l as int] == self.layers@[l as int]@);
            cur = self.layers[l].layer_activations(&cur, cfg);
            assert(self@.take(l + 1).drop_last() =~= self@.take(l as int));
            l += 1;
        }
        assert(self@.take(n as int) =~= self@);
        cur
    }

    /// Crossover of two networks: layer by layer, node by node, each synapse
    /// swapped with the trait swap chance.
    pub fn random_trade(&mut self, other: &mut Self, cfg: &Config)
        requires
            cfg.wf(),
        ensures
            traded_network(old(self)@, old(other)@, final(self)@, final(other)@, cfg.trait_swap_chance),
            final(self).num_inputs == old(self).num_inputs,
            final(other).num_inputs == old(other).num_inputs,
    {
        let n = if self.layers.len() < other.layers.len() {
            self.layers.len()
        } else {
            other.layers.len()
        };
        let ghost a = self@;
        let ghost b = other@;
        let mut l: usize = 0;
        while l < n
            invariant
                cfg.wf(),
                n <= a.len(),
                n <= b.len(),
                n == a.len() || n == b.len(),
                l <= n,
                self@.len() == a.len(),
                other@.len() == b.len(),
                self.num_inputs == old(self).num_inputs,
                other.num_inputs == old(other).num_inputs,
                forall|k: int|
                    0 <= k < l ==> traded_layer(a[k], b[k], #[trigger] self@[k], other@[k], cfg.trait_swap_chance),
                forall|k: int| l <= k < a.len() ==> #[trigger] self@[k] == a[k],
                forall|k: int| l <= k < b.len() ==> #[trigger] other@[k] == b[k],
            decreases n - l,
        {
            let ghost sv = self@;
            let ghost ov = other@;
            let ghost sm = self.layers@;
            let ghost om = other.layers@;
            assert(sv[l as int] == sm[l as int]@ && ov[l as int] == om[l as int]@);
            let mut x = NeuronConnectionMap { map: Vec::new() };
            let mut y = NeuronConnectionMap { map: Vec::new() };
            self.layers.set_and_swap(l, &mut x);
            other.layers.set_and_swap(l, &mut y);
            x.trade_with(&mut y, cfg);
            self.layers.set_and_swap(l, &mut x);
            other.layers.set_and_swap(l, &mut y);
            assert(self@ =~= sv.update(l as int, self.layers@[l as int]@));
            assert(other@ =~= ov.update(l as int, other.layers@[l as int]@));
            l += 1;
        }
    }

    /// Mutates every synapse of the network. Each weight ends within the
    /// weight mutation amount of where it was, each offset within the offset
    /// mutation amount.
    pub fn mutate(&mut self, cfg: &Config)
        requires
            cfg.wf(),
        ensures
            mutated_network(old(self)@, final(self)@, *cfg),
            final(self).num_inputs == old(self).num_inputs,
            forall|l: int, j: int, i: int|
                0 <= l < old(self)@.len() && 0 <= j < old(self)@[l].len() && 0 <= i < old(self)@[l][j].len()
                    ==> within(value(old(self)@[l][j][i].weight), value(#[trigger] final(self)@[l][j][i].weight), cfg.weight_mutate_amount),
    {
        let ghost s = self@;
        let n = self.layers.len();
        let mut l: usize = 0;
        while l < n
            invariant
                cfg.wf(),
                n == s.len(),
                l <= n,
                self@.len() == n,
                self.num_inputs == old(self).num_inputs,
                forall|k: int| 0 <= k < l ==> mutated_layer(s[k], #[trigger] self@[k], *cfg),
                forall|k: int| l <= k < n ==> #[trigger] self@[k] == s[k],
            decreases n - l,
        {
            let ghost sv = self@;
            let ghost sm = self.layers@;
            assert(sv[l as int] == sm[l as int]@);
            let mut x = NeuronConnectionMap { map: Vec::new() };
            self.layers.set_and_swap(l, &mut x);
            x.mutate_all(cfg);
            self.layers.set_and_swap(l, &mut x);
            assert(self@ =~= sv.update(l as int, self.layers@[l as int]@));
            l += 1;
        }
        assert forall|l: int, j: int, i: int|
            0 <= l < s.len() && 0 <= j < s[l].len() && 0 <= i < s[l][j].len() implies within(
            value(s[l][j][i].weight),
            value(#[trigger] self@[l][j][i].weight),
            cfg.weight_mutate_amount,
        ) by {
            assert(mutated_layer(s[l], self@[l], *cfg));
            assert(mutated_node(s[l][j], self@[l][j], *cfg));
        }
    }
}

} // verus!
