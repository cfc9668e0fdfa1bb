//! Synapses (`NeuronConnection`), the nodes that read them
//! (`NeuronConnectionSet`) and the layers of nodes (`NeuronConnectionMap`).
//!
//! Weights and offsets are held as the bit patterns of IEEE-754 doubles, so
//! a model file keeps them bit for bit. A node's sum is taken over their
//! fixed-point values: the integer `v` stands for `v / ONE`.
use crate::double::{decode_value, double_bits, encode_value, lemma_exact_small, units_of_double, MAX_EXACT};
use crate::random::{random_between, random_ratio};
use vstd::prelude::*;

verus! {

/// Fixed-point scale of every learnable value and of the activation
/// threshold: the integer `v` stands for the real number `v / ONE`.
pub const ONE: i64 = 4294967296;

/// The largest node count of a layer, and the largest input width in bits:
/// it keeps every weighted sum, and every buffer length, far from overflow.
pub const MAX_WIDTH: usize = 268435456;

/// Denominator of every chance in a [`Config`]: a chance `c` happens with
/// probability `c / CHANCE_SCALE`.
pub const CHANCE_SCALE: u32 = 1000000;

/// Default activation threshold: 0.6, cut down to a multiple of `2^-32`.
pub const NEURON_ACTIVATION_THRESH: i64 = 2576980377;

/// Default trait swap chance: 0.8.
pub const TRAIT_SWAP_CHANCE: u32 = 800000;

/// Default weight mutation chance: 0.65.
pub const WEIGHT_MUTATE_CHANCE: u32 = 650000;

/// Default weight mutation amount: 0.5.
pub const WEIGHT_MUTATE_AMOUNT: i64 = 2147483648;

/// Default offset mutation chance: 0.25.
pub const OFFSET_MUTATE_CHANCE: u32 = 250000;

/// Default offset mutation amount: 0.05, cut down to a multiple of `2^-32`.
pub const OFFSET_MUTATE_AMOUNT: i64 = 214748364;

/// The hyperparameters that every operation on a network is given.
#[derive(Clone, Copy, Debug, PartialEq, Eq)]
pub struct Config {
    /// A node fires when its weighted sum exceeds this (fixed-point).
    pub activation_thresh: i64,
    /// Chance that two synapses at the same place are swapped in crossover.
    pub trait_swap_chance: u32,
    /// Chance that a weight is redrawn near its value in mutation.
    pub weight_mutate_chance: u32,
    /// How far a redrawn weight may move (fixed-point).
    pub weight_mutate_amount: i64,
    /// Chance that an offset is redrawn near its value in mutation.
    pub offset_mutate_chance: u32,
    /// How far a redrawn offset may move (fixed-point).
    pub offset_mutate_amount: i64,
}

impl Default for Config {
    /// The default hyperparameters.
    fn default() -> (r: Self)
        ensures
            r == (Config {
                activation_thresh: NEURON_ACTIVATION_THRESH,
                trait_swap_chance: TRAIT_SWAP_CHANCE,
                weight_mutate_chance: WEIGHT_MUTATE_CHANCE,
                weight_mutate_amount: WEIGHT_MUTATE_AMOUNT,
                offset_mutate_chance: OFFSET_MUTATE_CHANCE,
                offset_mutate_amount: OFFSET_MUTATE_AMOUNT,
            }),
            r.wf(),
    {
        Config {
            activation_thresh: NEURON_ACTIVATION_THRESH,
            trait_swap_chance: TRAIT_SWAP_CHANCE,
            weight_mutate_chance: WEIGHT_MUTATE_CHANCE,
            weight_mutate_amount: WEIGHT_MUTATE_AMOUNT,
            offset_mutate_chance: OFFSET_MUTATE_CHANCE,
            offset_mutate_amount: OFFSET_MUTATE_AMOUNT,
        }
    }
}

impl Config {
    /// Chances within `CHANCE_SCALE`, amounts not negative.
    pub open spec fn wf(&self) -> bool {
        &&& self.trait_swap_chance <= CHANCE_SCALE
        &&& self.weight_mutate_chance <= CHANCE_SCALE
        &&& self.offset_mutate_chance <= CHANCE_SCALE
        &&& self.weight_mutate_amount >= 0
        &&& self.offset_mutate_amount >= 0
    }
}

/// One learnable (weight, offset) pair between an upstream bit and a node,
/// each held as the bit pattern of an IEEE-754 double.
#[derive(Clone, Copy, Debug, PartialEq, Eq, Structural)]
pub struct NeuronConnection {
    pub weight: u64,
    pub offset: u64,
}

/// The fixed-point value of a weight or an offset.
pub open spec fn value(bits: u64) -> i64 {
    units_of_double(bits)
}

/// The range a freshly drawn synapse lies in: weight in `[-1, 1]`, offset in
/// `[-0.5, 0.5]`.
pub open spec fn is_initial(c: NeuronConnection) -> bool {
    &&& -ONE <= value(c.weight) <= ONE
    &&& -(ONE / 2) <= value(c.offset) <= ONE / 2
}

/// `to` lies within `amount` of `from`.
pub open spec fn within(from: i64, to: i64, amount: i64) -> bool {
    from - amount <= to <= from + amount
}

/// `d` is a possible outcome of mutating `c`: each value is either kept or
/// redrawn (see `redrawn`), so it stays within its mutation amount; one
/// whose chance is zero is kept, and one whose chance is certain is redrawn.
pub open spec fn mutated(c: NeuronConnection, d: NeuronConnection, cfg: Config) -> bool {
    &&& within(value(c.weight), value(d.weight), cfg.weight_mutate_amount)
    &&& within(value(c.offset), value(d.offset), cfg.offset_mutate_amount)
    &&& d.weight == c.weight || redrawn(c.weight, d.weight, cfg.weight_mutate_amount)
    &&& d.offset == c.offset || redrawn(c.offset, d.offset, cfg.offset_mutate_amount)
    &&& cfg.weight_mutate_chance == 0 ==> d.weight == c.weight
    &&& cfg.offset_mutate_chance == 0 ==> d.offset == c.offset
    &&& cfg.weight_mutate_chance == CHANCE_SCALE ==> redrawn(c.weight, d.weight, cfg.weight_mutate_amount)
    &&& cfg.offset_mutate_chance == CHANCE_SCALE ==> redrawn(c.offset, d.offset, cfg.offset_mutate_amount)
}

/// The low end of the interval a value `v` is redrawn from: `v - amount`,
/// clipped at `-MAX_EXACT` so that the double of any value in it is exact.
pub open spec fn draw_low(v: i64, amount: i64) -> int {
    if v - amount < -MAX_EXACT {
        -MAX_EXACT as int
    } else {
        v - amount
    }
}

/// The high end of the interval a value `v` is redrawn from: `v + amount`,
/// clipped at `MAX_EXACT`.
pub open spec fn draw_high(v: i64, amount: i64) -> int {
    if v + amount > MAX_EXACT {
        MAX_EXACT as int
    } else {
        v + amount
    }
}

/// `to` is a redraw of `from`: the exact double of a value in the redraw
/// interval of `from`'s value. A value so far out that the interval is empty
/// stays as it is.
pub open spec fn redrawn(from: u64, to: u64, amount: i64) -> bool {
    let v = value(from);
    if draw_low(v, amount) <= draw_high(v, amount) {
        &&& to == double_bits(value(to))
        &&& draw_low(v, amount) <= value(to) <= draw_high(v, amount)
    } else {
        to == from
    }
}

/// Every synapse of `t` is a mutation of the one at its place in `s`.
pub open spec fn mutated_node(s: Seq<NeuronConnection>, t: Seq<NeuronConnection>, cfg: Config) -> bool {
    &&& t.len() == s.len()
    &&& forall|i: int| 0 <= i < s.len() ==> mutated(s[i], #[trigger] t[i], cfg)
}

/// Every node of `t` is a mutation of the one at its place in `s`.
pub open spec fn mutated_layer(s: Seq<Seq<NeuronConnection>>, t: Seq<Seq<NeuronConnection>>, cfg: Config) -> bool {
    &&& t.len() == s.len()
    &&& forall|j: int| 0 <= j < s.len() ==> mutated_node(s[j], #[trigger] t[j], cfg)
}

/// The effect of crossover at place `i` of two sequences: where both have a
/// place `i`, the two items there are kept or swapped (always kept when the
/// chance is zero, always swapped when it is certain); elsewhere nothing moves.
pub open spec fn swapped_at<T>(a: Seq<T>, b: Seq<T>, a2: Seq<T>, b2: Seq<T>, i: int, chance: u32) -> bool {
    if i < a.len() && i < b.len() {
        &&& (a2[i] == a[i] && b2[i] == b[i]) || (a2[i] == b[i] && b2[i] == a[i])
        &&& chance == 0 ==> a2[i] == a[i] && b2[i] == b[i]
        &&& chance == CHANCE_SCALE ==> a2[i] == b[i] && b2[i] == a[i]
    } else {
        &&& i < a.len() ==> a2[i] == a[i]
        &&& i < b.len() ==> b2[i] == b[i]
    }
}

/// `(a2, b2)` is a possible outcome of crossing the synapses of `a` and `b`.
pub open spec fn traded_node(
    a: Seq<NeuronConnection>,
    b: Seq<NeuronConnection>,
    a2: Seq<NeuronConnection>,
    b2: Seq<NeuronConnection>,
    chance: u32,
) -> bool {
    &&& a2.len() == a.len()
    &&& b2.len() == b.len()
    &&& forall|i: int| 0 <= i < a.len() || 0 <= i < b.len() ==> #[trigger] swapped_at(a, b, a2, b2, i, chance)
}

/// `(a2, b2)` is a possible outcome of crossing two layers node by node.
pub open spec fn traded_layer(
    a: Seq<Seq<NeuronConnection>>,
    b: Seq<Seq<NeuronConnection>>,
    a2: Seq<Seq<NeuronConnection>>,
    b2: Seq<Seq<NeuronConnection>>,
    chance: u32,
) -> bool {
    &&& a2.len() == a.len()
    &&& b2.len() == b.len()
    &&& forall|j: int| 0 <= j < a.len() && j < b.len() ==> traded_node(a[j], b[j], #[trigger] a2[j], b2[j], chance)
    &&& forall|j: int| b.len() <= j < a.len() ==> #[trigger] a2[j] == a[j]
    &&& forall|j: int| a.len() <= j < b.len() ==> #[trigger] b2[j] == b[j]
}

/// Bit `i` of a buffer, most significant bit of each byte first.
pub open spec fn input_bit(input: Seq<u8>, i: int) -> bool {
    (input[i / 8] >> ((7 - i % 8) as u8)) & 1u8 == 1u8
}

/// What one synapse adds to its node's sum. The offset counts whatever the
/// input bit: it is a bias, not gated by the bit.
pub open spec fn term(c: NeuronConnection, bit: bool) -> int {
    (if bit { value(c.weight) as int } else { 0 }) + value(c.offset) as int
}

/// The weighted sum of a node: synapse `i` reads bit `i` of the input.
pub open spec fn activation_sum(conns: Seq<NeuronConnection>, input: Seq<u8>) -> int
    decreases conns.len(),
{
    if conns.len() == 0 {
        0
    } else {
        activation_sum(conns.drop_last(), input) + term(conns.last(), input_bit(input, conns.len() - 1))
    }
}

/// A node fires when its weighted sum exceeds the threshold.
pub open spec fn fires(conns: Seq<NeuronConnection>, input: Seq<u8>, thresh: i64) -> bool {
    activation_sum(conns, input) > thresh
}

proof fn lemma_zero_sum(conns: Seq<NeuronConnection>, input: Seq<u8>)
    requires
        forall|i: int| 0 <= i < conns.len() ==> value(#[trigger] conns[i].weight) == 0 && value(conns[i].offset) == 0,
    ensures
        activation_sum(conns, input) == 0,
    decreases conns.len(),
{
    if conns.len() > 0 {
        let c = conns.drop_last();
        assert(forall|i: int| 0 <= i < c.len() ==> #[trigger] c[i] == conns[i]);
        lemma_zero_sum(c, input);
        assert(value(conns.last().weight) == 0);
    }
}

/// A node whose weights and offsets are all zero never fires, on any
/// input, when the threshold is not negative.
pub proof fn lemma_zero_node_silent(conns: Seq<NeuronConnection>, input: Seq<u8>, thresh: i64)
    requires
        forall|i: int| 0 <= i < conns.len() ==> value(#[trigger] conns[i].weight) == 0 && value(conns[i].offset) == 0,
        thresh >= 0,
    ensures
        !fires(conns, input, thresh),
{
    lemma_zero_sum(conns, input);
}

/// Whether each node of a layer fires, in node order.
pub open spec fn layer_bits(nodes: Seq<Seq<NeuronConnection>>, input: Seq<u8>, thresh: i64) -> Seq<bool> {
    Seq::new(nodes.len(), |j: int| fires(nodes[j], input, thresh))
}

/// 1 when `bits` has place `i` and it is set, else 0.
pub open spec fn bit_flag(bits: Seq<bool>, i: int) -> u8 {
    if 0 <= i < bits.len() && bits[i] {
        1
    } else {
        0
    }
}

/// Byte `j` of the packing of `bits`: bits `8j .. 8j + 8`, the first as the
/// most significant; the places past the end of `bits` are zero.
pub open spec fn packed_byte(bits: Seq<bool>, j: int) -> u8 {
    (bit_flag(bits, 8 * j) << 7u8) | (bit_flag(bits, 8 * j + 1) << 6u8) | (bit_flag(bits, 8 * j + 2) << 5u8)
        | (bit_flag(bits, 8 * j + 3) << 4u8) | (bit_flag(bits, 8 * j + 4) << 3u8) | (bit_flag(bits, 8 * j + 5)
        << 2u8) | (bit_flag(bits, 8 * j + 6) << 1u8) | bit_flag(bits, 8 * j + 7)
}

/// `bits` packed eight to a byte, the last partial byte padded with zeros.
pub open spec fn pack(bits: Seq<bool>) -> Seq<u8> {
    Seq::new((bits.len() + 7) / 8, |j: int| packed_byte(bits, j))
}

/// The output buffer of a layer.
pub open spec fn layer_output(nodes: Seq<Seq<NeuronConnection>>, input: Seq<u8>, thresh: i64) -> Seq<u8> {
    pack(layer_bits(nodes, input, thresh))
}

/// The interval that a value `v` is redrawn from (see `draw_low` and
/// `draw_high`).
pub fn draw_bounds(v: i64, amount: i64) -> (r: (i64, i64))
    requires
        amount >= 0,
    ensures
        r.0 == draw_low(v, amount),
        r.1 == draw_high(v, amount),
{
    let lo = if (v as i128) - (amount as i128) < -(MAX_EXACT as i128) {
        -MAX_EXACT
    } else {
        v - amount
    };
    let hi = if (v as i128) + (amount as i128) > MAX_EXACT as i128 {
        MAX_EXACT
    } else {
        v + amount
    };
    (lo, hi)
}

impl NeuronConnection {
    /// A synapse drawn at random in the initial ranges.
    pub fn new_random() -> (r: Self)
        ensures
            is_initial(r),
    {
        let weight = random_between(-ONE, ONE);
        let offset = random_between(-(ONE / 2), ONE / 2);
        proof {
            lemma_exact_small(weight);
            lemma_exact_small(offset);
        }
        NeuronConnection { weight: encode_value(weight), offset: encode_value(offset) }
    }

    /// With its own chance each, redraws the weight and the offset near their
    /// current values (see `redrawn`).
    pub fn mutate(&mut self, cfg: &Config)
        requires
            cfg.wf(),
        ensures
            mutated(*old(self), *final(self), *cfg),
    {
        let (wlo, whi) = draw_bounds(decode_value(self.weight), cfg.weight_mutate_amount);
        let redraw_weight = random_ratio(cfg.weight_mutate_chance, CHANCE_SCALE) && wlo <= whi;
        let weight = if redraw_weight {
            random_between(wlo, whi)
        } else {
            0
        };
        let (olo, ohi) = draw_bounds(decode_value(self.offset), cfg.offset_mutate_amount);
        let redraw_offset = random_ratio(cfg.offset_mutate_chance, CHANCE_SCALE) && olo <= ohi;
        let offset = if redraw_offset {
            random_between(olo, ohi)
        } else {
            0
        };
        self.apply_mutation(cfg, redraw_weight, weight, redraw_offset, offset);
    }

    /// The effect of mutation once its draws are made: the weight becomes
    /// the double of `weight` when `redraw_weight`, and likewise the offset.
    pub fn apply_mutation(&mut self, cfg: &Config, redraw_weight: bool, weight: i64, redraw_offset: bool, offset: i64)
        requires
            cfg.wf(),
            redraw_weight ==> draw_low(value(old(self).weight), cfg.weight_mutate_amount) <= weight <= draw_high(
                value(old(self).weight),
                cfg.weight_mutate_amount,
            ),
            redraw_offset ==> draw_low(value(old(self).offset), cfg.offset_mutate_amount) <= offset <= draw_high(
                value(old(self).offset),
                cfg.offset_mutate_amount,
            ),
        ensures
            final(self).weight == if redraw_weight {
                double_bits(weight)
            } else {
                old(self).weight
            },
            final(self).offset == if redraw_offset {
                double_bits(offset)
            } else {
                old(self).offset
            },
            redraw_weight ==> redrawn(old(self).weight, final(self).weight, cfg.weight_mutate_amount),
            redraw_offset ==> redrawn(old(self).offset, final(self).offset, cfg.offset_mutate_amount),
    {
        if redraw_weight {
            proof {
                lemma_exact_small(weight);
            }
            self.weight = encode_value(weight);
        }
        if redraw_offset {
            proof {
                lemma_exact_small(offset);
            }
            self.offset = encode_value(offset);
        }
    }
}

/// A node: one synapse per bit of the buffer it reads.
#[derive(Clone, Debug)]
pub struct NeuronConnectionSet {
    pub conns: Vec<NeuronConnection>,
}

impl View for NeuronConnectionSet {
    type V = Seq<NeuronConnection>;

    open spec fn view(&self) -> Seq<NeuronConnection> {
        self.conns@
    }
}

impl NeuronConnectionSet {
    /// A copy of the node.
    pub fn duplicate(&self) -> (r: Self)
        ensures
            r@ == self@,
    {
        let conns = self.conns.clone();
        assert(conns@ =~= self.conns@);
        NeuronConnectionSet { conns }
    }

    /// A node of `size` synapses drawn at random.
    pub fn new_random(size: usize) -> (r: Self)
        ensures
            r@.len() == size,
            forall|i: int| 0 <= i < size ==> is_initial(#[trigger] r@[i]),
    {
        let mut conns: Vec<NeuronConnection> = Vec::new();
        let mut i: usize = 0;
        while i < size
            invariant
                i <= size,
                conns@.len() == i,
                forall|k: int| 0 <= k < i ==> is_initial(#[trigger] conns@[k]),
            decreases size - i,
        {
            conns.push(NeuronConnection::new_random());
            i += 1;
        }
        NeuronConnectionSet { conns }
    }

    /// Whether the node fires on `input`.
    pub fn activated(&self, input: &Vec<u8>, cfg: &Config) -> (r: bool)
        requires
            self@.len() <= MAX_WIDTH,
            self@.len() <= 8 * input@.len(),
        ensures
            r == fires(self@, input@, cfg.activation_thresh),
    {
        let n = self.conns.len();
        let mut sum: i128 = 0;
        let mut i: usize = 0;
        while i < n
            invariant
                n == self@.len(),
                n <= MAX_WIDTH,
                n <= 8 * input@.len(),
                i <= n,
                sum == activation_sum(self@.take(i as int), input@),
                -(i as int) * 0x1_0000_0000_0000_0000 <= sum <= (i as int) * 0x1_0000_0000_0000_0000,
            decreases n - i,
        {
            let c = self.conns[i];
            let shift: u8 = (7 - i % 8) as u8;
            let bit = (input[i / 8] >> shift) & 1u8;
            if bit == 1u8 {
                sum = sum + decode_value(c.weight) as i128;
            }
            sum = sum + decode_value(c.offset) as i128;
            assert(self@.take(i + 1).drop_last() =~= self@.take(i as int));
            i += 1;
        }
        assert(self@.take(n as int) =~= self@);
        sum > cfg.activation_thresh as i128
    }

    /// Crossover: each synapse is swapped with the one at its place in
    /// `other`, independently, with the trait swap chance.
    pub fn trade_with(&mut self, other: &mut Self, cfg: &Config)
        requires
            cfg.wf(),
        ensures
            traded_node(old(self)@, old(other)@, final(self)@, final(other)@, cfg.trait_swap_chance),
    {
        let n = if self.conns.len() < other.conns.len() {
            self.conns.len()
        } else {
            other.conns.len()
        };
        let ghost a = self@;
        let ghost b = other@;
        let mut i: usize = 0;
        while i < n
            invariant
                cfg.wf(),
                n <= a.len(),
                n <= b.len(),
                n == a.len() || n == b.len(),
                i <= n,
                self@.len() == a.len(),
                other@.len() == b.len(),
                forall|k: int| 0 <= k < i ==> #[trigger] swapped_at(a, b, self@, other@, k, cfg.trait_swap_chance),
                forall|k: int| i <= k < a.len() ==> #[trigger] self@[k] == a[k],
                forall|k: int| i <= k < b.len() ==> #[trigger] other@[k] == b[k],
            decreases n - i,
        {
            let ghost s0 = self@;
            let ghost o0 = other@;
            if random_ratio(cfg.trait_swap_chance, CHANCE_SCALE) {
                let x = self.conns[i];
                let y = other.conns[i];
                self.conns.set(i, y);
                other.conns.set(i, x);
            }
            assert forall|k: int| 0 <= k <= i implies #[trigger] swapped_at(
                a,
                b,
                self@,
                other@,
                k,
                cfg.trait_swap_chance,
            ) by {
                if k < i {
                    assert(swapped_at(a, b, s0, o0, k, cfg.trait_swap_chance));
                }
            }
            i += 1;
        }
        assert forall|k: int| 0 <= k < a.len() || 0 <= k < b.len() implies #[trigger] swapped_at(
            a,
            b,
            self@,
            other@,
            k,
            cfg.trait_swap_chance,
        ) by {
            if k >= n {
            }
        }
    }

    /// Mutates every synapse of the node.
    pub fn mutate_all(&mut self, cfg: &Config)
        requires
            cfg.wf(),
        ensures
            mutated_node(old(self)@, final(self)@, *cfg),
    {
        let ghost s = self@;
        let n = self.conns.len();
        let mut i: usize = 0;
        while i < n
            invariant
                cfg.wf(),
                n == s.len(),
                i <= n,
                self@.len() == n,
                forall|k: int| 0 <= k < i ==> mutated(s[k], #[trigger] self@[k], *cfg),
                forall|k: int| i <= k < n ==> #[trigger] self@[k] == s[k],
            decreases n - i,
        {
            let mut c = self.conns[i];
            c.mutate(cfg);
            self.conns.set(i, c);
            i += 1;
        }
    }
}

/// A layer: one node per bit of the buffer it writes.
#[derive(Clone, Debug)]
pub struct NeuronConnectionMap {
    pub map: Vec<NeuronConnectionSet>,
}

impl View for NeuronConnectionMap {
    type V = Seq<Seq<NeuronConnection>>;

    open spec fn view(&self) -> Seq<Seq<NeuronConnection>> {
        self.map@.map_values(|s: NeuronConnectionSet| s@)
    }
}

impl NeuronConnectionMap {
    /// A copy of the layer.
    pub fn duplicate(&self) -> (r: Self)
        ensures
            r@ == self@,
    {
        let mut map: Vec<NeuronConnectionSet> = Vec::new();
        let mut j: usize = 0;
        while j < self.map.len()
            invariant
                j <= self.map@.len(),
                map@.len() == j,
                forall|k: int| 0 <= k < j ==> (#[trigger] map@[k])@ == self.map@[k]@,
            decreases self.map@.len() - j,
        {
            map.push(self.map[j].duplicate());
            j += 1;
        }
        let r = NeuronConnectionMap { map };
        assert(r@ =~= self@);
        r
    }

    /// A layer of `size` nodes of `neuron_size` synapses each, drawn at random.
    pub fn new_random(size: usize, neuron_size: usize) -> (r: Self)
        ensures
            r@.len() == size,
            forall|j: int| 0 <= j < size ==> (#[trigger] r@[j]).len() == neuron_size,
            forall|j: int, i: int| 0 <= j < size && 0 <= i < neuron_size ==> is_initial(#[trigger] r@[j][i]),
    {
        let mut map: Vec<NeuronConnectionSet> = Vec::new();
        let mut j: usize = 0;
        while j < size
            invariant
                j <= size,
                map@.len() == j,
                forall|k: int| 0 <= k < j ==> (#[trigger] map@[k])@.len() == neuron_size,
                forall|k: int, i: int| 0 <= k < j && 0 <= i < neuron_size ==> is_initial(#[trigger] map@[k]@[i]),
            decreases size - j,
        {
            map.push(NeuronConnectionSet::new_random(neuron_size));
            j += 1;
        }
        NeuronConnectionMap { map }
    }

    /// 1 when node `idx` exists and fires on `input`, else 0.
    fn flag(&self, idx: usize, input: &Vec<u8>, cfg: &Config) -> (r: u8)
        requires
            forall|j: int| 0 <= j < self@.len() ==> (#[trigger] self@[j]).len() <= MAX_WIDTH,
            forall|j: int| 0 <= j < self@.len() ==> (#[trigger] self@[j]).len() <= 8 * input@.len(),
        ensures
            r == bit_flag(layer_bits(self@, input@, cfg.activation_thresh), idx as int),
    {
        if idx < self.map.len() {
            assert(self@[idx as int] == self.map@[idx as int]@);
            if self.map[idx].activated(input, cfg) {
                1
            } else {
                0
            }
        } else {
            0
        }
    }

    /// The layer's output: whether each node fires, packed eight to a byte,
    /// the first node as the most significant bit. A last partial byte is
    /// written out, padded with zeros.
    pub fn layer_activations(&self, input: &Vec<u8>, cfg: &Config) -> (r: Vec<u8>)
        requires
            self@.len() <= MAX_WIDTH,
            forall|j: int| 0 <= j < self@.len() ==> (#[trigger] self@[j]).len() <= MAX_WIDTH,
            forall|j: int| 0 <= j < self@.len() ==> (#[trigger] self@[j]).len() <= 8 * input@.len(),
        ensures
            r@ == layer_output(self@, input@, cfg.activation_thresh),
    {
        let ghost bits = layer_bits(self@, input@, cfg.activation_thresh);
        assert(self.map@.len() == self@.len());
        let nbytes = (self.map.len() + 7) / 8;
        let mut out: Vec<u8> = Vec::new();
        let mut j: usize = 0;
        while j < nbytes
            invariant
                nbytes == (self@.len() + 7) / 8,
                self@.len() <= MAX_WIDTH,
                forall|k: int| 0 <= k < self@.len() ==> (#[trigger] self@[k]).len() <= MAX_WIDTH,
                forall|k: int| 0 <= k < self@.len() ==> (#[trigger] self@[k]).len() <= 8 * input@.len(),
                bits == layer_bits(self@, input@, cfg.activation_thresh),
                j <= nbytes,
                out@.len() == j,
                forall|k: int| 0 <= k < j ==> #[trigger] out@[k] == packed_byte(bits, k),
            decreases nbytes - j,
        {
            let base = 8 * j;
            let b: u8 = (self.flag(base, input, cfg) << 7u8) | (self.flag(base + 1, input, cfg) << 6u8) | (
            self.flag(base + 2, input, cfg) << 5u8) | (self.flag(base + 3, input, cfg) << 4u8) | (self.flag(
                base + 4,
                input,
                cfg,
            ) << 3u8) | (self.flag(base + 5, input, cfg) << 2u8) | (self.flag(base + 6, input, cfg) << 1u8)
                | self.flag(base + 7, input, cfg);
            out.push(b);
            j += 1;
        }
        assert(out@ =~= layer_output(self@, input@, cfg.activation_thresh));
        out
    }

    /// Crossover of two layers: node by node, as [`NeuronConnectionSet::trade_with`].
    pub fn trade_with(&mut self, other: &mut Self, cfg: &Config)
        requires
            cfg.wf(),
        ensures
            traded_layer(old(self)@, old(other)@, final(self)@, final(other)@, cfg.trait_swap_chance),
    {
        let n = if self.map.len() < other.map.len() {
            self.map.len()
        } else {
            other.map.len()
        };
        let ghost a = self@;
        let ghost b = other@;
        let mut j: usize = 0;
        while j < n
            invariant
                cfg.wf(),
                n <= a.len(),
                n <= b.len(),
                n == a.len() || n == b.len(),
                j <= n,
                self@.len() == a.len(),
                other@.len() == b.len(),
                forall|k: int| 0 <= k < j ==> traded_node(a[k], b[k], #[trigger] self@[k], other@[k], cfg.trait_swap_chance),
                forall|k: int| j <= k < a.len() ==> #[trigger] self@[k] == a[k],
                forall|k: int| j <= k < b.len() ==> #[trigger] other@[k] == b[k],
            decreases n - j,
        {
            let ghost sv = self@;
            let ghost ov = other@;
            let ghost sm = self.map@;
            let ghost om = other.map@;
            assert(sv[j as int] == sm[j as int]@ && ov[j as int] == om[j as int]@);
            let mut x = NeuronConnectionSet { conns: Vec::new() };
            let mut y = NeuronConnectionSet { conns: Vec::new() };
            self.map.set_and_swap(j, &mut x);
            other.map.set_and_swap(j, &mut y);
            assert(x@ == a[j as int] && y@ == b[j as int]);
            x.trade_with(&mut y, cfg);
            self.map.set_and_swap(j, &mut x);
            other.map.set_and_swap(j, &mut y);
            assert(self@ =~= sv.update(j as int, self.map@[j as int]@));
            assert(other@ =~= ov.update(j as int, other.map@[j as int]@));
            j += 1;
        }
    }

    /// Mutates every synapse of the layer.
    pub fn mutate_all(&mut self, cfg: &Config)
        requires
            cfg.wf(),
        ensures
            mutated_layer(old(self)@, final(self)@, *cfg),
    {
        let ghost s = self@;
        let n = self.map.len();
        let mut j: usize = 0;
        while j < n
            invariant
                cfg.wf(),
                n == s.len(),
                j <= n,
                self@.len() == n,
                forall|k: int| 0 <= k < j ==> mutated_node(s[k], #[trigger] self@[k], *cfg),
                forall|k: int| j <= k < n ==> #[trigger] self@[k] == s[k],
            decreases n - j,
        {
            let ghost sv = self@;
            let ghost sm = self.map@;
            assert(sv[j as int] == sm[j as int]@);
            let mut x = NeuronConnectionSet { conns: Vec::new() };
            self.map.set_and_swap(j, &mut x);
            assert(x@ == s[j as int]);
            x.mutate_all(cfg);
            self.map.set_and_swap(j, &mut x);
            assert(self@ =~= sv.update(j as int, self.map@[j as int]@));
            j += 1;
        }
    }
}

} // verus!
