//! The model format: every synapse of a network, layer by layer, node by
//! node, as its weight then its offset, each the eight big-endian bytes of
//! an IEEE-754 double, stored raw. The format holds no shape: a reader must
//! know the architecture.
use crate::network::{arch, has_shape, Layers, Network};
use crate::neuron::{NeuronConnection, NeuronConnectionMap, NeuronConnectionSet, MAX_WIDTH};
use vstd::prelude::*;

verus! {

/// The eight big-endian bytes of `u`.
pub open spec fn be_bytes(u: u64) -> Seq<u8> {
    seq![
        (u >> 56u64) as u8,
        (u >> 48u64) as u8,
        (u >> 40u64) as u8,
        (u >> 32u64) as u8,
        (u >> 24u64) as u8,
        (u >> 16u64) as u8,
        (u >> 8u64) as u8,
        u as u8,
    ]
}

/// The value whose big-endian bytes are `b[0..8]`.
pub open spec fn from_be(b: Seq<u8>) -> u64 {
    ((b[0] as u64) << 56u64) | ((b[1] as u64) << 48u64) | ((b[2] as u64) << 40u64) | ((b[3] as u64) << 32u64)
        | ((b[4] as u64) << 24u64) | ((b[5] as u64) << 16u64) | ((b[6] as u64) << 8u64) | (b[7] as u64)
}

proof fn lemma_be_round_trip(u: u64)
    ensures
        from_be(be_bytes(u)) == u,
{
    assert((((((u >> 56u64) as u8) as u64) << 56u64) | ((((u >> 48u64) as u8) as u64) << 48u64)
        | ((((u >> 40u64) as u8) as u64) << 40u64) | ((((u >> 32u64) as u8) as u64) << 32u64)
        | ((((u >> 24u64) as u8) as u64) << 24u64) | ((((u >> 16u64) as u8) as u64) << 16u64)
        | ((((u >> 8u64) as u8) as u64) << 8u64) | ((u as u8) as u64)) == u) by (bit_vector);
}

/// The synapses of a layer in order: node by node.
pub open spec fn flat_layer(nodes: Seq<Seq<NeuronConnection>>) -> Seq<NeuronConnection>
    decreases nodes.len(),
{
    if nodes.len() == 0 {
        seq![]
    } else {
        flat_layer(nodes.drop_last()) + nodes.last()
    }
}

/// The synapses of a network in order: layer by layer.
pub open spec fn flat_network(layers: Layers) -> Seq<NeuronConnection>
    decreases layers.len(),
{
    if layers.len() == 0 {
        seq![]
    } else {
        flat_network(layers.drop_last()) + flat_layer(layers.last())
    }
}

/// The sixteen bytes of one synapse: the double of its weight, then of its
/// offset.
pub open spec fn synapse_bytes(c: NeuronConnection) -> Seq<u8> {
    be_bytes(c.weight) + be_bytes(c.offset)
}

/// The bytes of a sequence of synapses.
pub open spec fn encode(s: Seq<NeuronConnection>) -> Seq<u8>
    decreases s.len(),
{
    if s.len() == 0 {
        seq![]
    } else {
        encode(s.drop_last()) + synapse_bytes(s.last())
    }
}

/// Synapse `k` of a buffer: the sixteen bytes from `16 * k`.
pub open spec fn decode_at(bytes: Seq<u8>, k: int) -> NeuronConnection {
    NeuronConnection {
        weight: from_be(bytes.subrange(16 * k, 16 * k + 8)),
        offset: from_be(bytes.subrange(16 * k + 8, 16 * k + 16)),
    }
}

/// The synapses that a buffer holds, one per whole sixteen bytes.
pub open spec fn decode(bytes: Seq<u8>) -> Seq<NeuronConnection> {
    Seq::new(bytes.len() / 16, |k: int| decode_at(bytes, k))
}

/// The number of synapses of an architecture: each layer has one per pair of
/// an input bit and a node.
pub open spec fn synapse_count(widths: Seq<nat>) -> nat
    decreases widths.len(),
{
    if widths.len() < 2 {
        0
    } else {
        synapse_count(widths.drop_last()) + widths[widths.len() - 2] * widths[widths.len() - 1]
    }
}

/// Why a model cannot be read or run.
#[derive(Clone, Copy, Debug, PartialEq, Eq, Structural)]
pub enum ModelError {
    /// The buffer's length is not sixteen bytes per synapse of the
    /// architecture.
    WrongLength,
    /// The input buffer holds fewer bits than the model reads.
    InputTooShort,
}

/// The eight big-endian bytes of `v`, appended to `out`.
fn push_be(out: &mut Vec<u8>, u: u64)
    ensures
        final(out)@ == old(out)@ + be_bytes(u),
{
    out.push((u >> 56u64) as u8);
    out.push((u >> 48u64) as u8);
    out.push((u >> 40u64) as u8);
    out.push((u >> 32u64) as u8);
    out.push((u >> 24u64) as u8);
    out.push((u >> 16u64) as u8);
    out.push((u >> 8u64) as u8);
    out.push(u as u8);
    assert(final(out)@ =~= old(out)@ + be_bytes(u));
}

/// The value of the eight big-endian bytes of `bytes` from `at`.
fn read_be(bytes: &Vec<u8>, at: usize) -> (r: u64)
    requires
        at + 8 <= bytes@.len(),
    ensures
        r == from_be(bytes@.subrange(at as int, at + 8)),
{
    let _n = bytes.len();
    let u: u64 = ((bytes[at] as u64) << 56u64) | ((bytes[at + 1] as u64) << 48u64) | ((bytes[at + 2] as u64)
        << 40u64) | ((bytes[at + 3] as u64) << 32u64) | ((bytes[at + 4] as u64) << 24u64) | ((bytes[at
        + 5] as u64) << 16u64) | ((bytes[at + 6] as u64) << 8u64) | (bytes[at + 7] as u64);
    u
}

proof fn lemma_encode_len(s: Seq<NeuronConnection>)
    ensures
        encode(s).len() == 16 * s.len(),
    decreases s.len(),
{
    if s.len() > 0 {
        lemma_encode_len(s.drop_last());
    }
}

proof fn lemma_encode_at(s: Seq<NeuronConnection>, k: int)
    requires
        0 <= k < s.len(),
    ensures
        encode(s).subrange(16 * k, 16 * k + 16) == synapse_bytes(s[k]),
    decreases s.len(),
{
    lemma_encode_len(s.drop_last());
    let pre = encode(s.drop_last());
    assert(encode(s) == pre + synapse_bytes(s.last()));
    if k == s.len() - 1 {
        assert(encode(s).subrange(16 * k, 16 * k + 16) =~= synapse_bytes(s[k]));
    } else {
        lemma_encode_at(s.drop_last(), k);
        assert(encode(s).subrange(16 * k, 16 * k + 16) =~= pre.subrange(16 * k, 16 * k + 16));
    }
}

/// Decoding the bytes of a sequence of synapses gives it back.
pub proof fn lemma_decode_encode(s: Seq<NeuronConnection>)
    ensures
        decode(encode(s)) == s,
{
    lemma_encode_len(s);
    let e = encode(s);
    assert forall|k: int| 0 <= k < s.len() implies decode_at(e, k) == s[k] by {
        lemma_encode_at(s, k);
        let sb = e.subrange(16 * k, 16 * k + 16);
        assert(sb == be_bytes(s[k].weight) + be_bytes(s[k].offset));
        assert(e.subrange(16 * k, 16 * k + 8) =~= sb.subrange(0, 8));
        assert(e.subrange(16 * k + 8, 16 * k + 16) =~= sb.subrange(8, 16));
        assert(sb.subrange(0, 8) =~= be_bytes(s[k].weight));
        assert(sb.subrange(8, 16) =~= be_bytes(s[k].offset));
        lemma_be_round_trip(s[k].weight);
        lemma_be_round_trip(s[k].offset);
    }
    assert(decode(e) =~= s);
}

proof fn lemma_flat_layer_len(nodes: Seq<Seq<NeuronConnection>>, w: nat)
    requires
        forall|j: int| 0 <= j < nodes.len() ==> (#[trigger] nodes[j]).len() == w,
    ensures
        flat_layer(nodes).len() == nodes.len() * w,
    decreases nodes.len(),
{
    if nodes.len() > 0 {
        lemma_flat_layer_len(nodes.drop_last(), w);
        assert(nodes.len() * w == (nodes.len() - 1) * w + w) by (nonlinear_arith);
    }
}

proof fn lemma_flat_layer_inj(a: Seq<Seq<NeuronConnection>>, b: Seq<Seq<NeuronConnection>>, w: nat)
    requires
        a.len() == b.len(),
        forall|j: int| 0 <= j < a.len() ==> (#[trigger] a[j]).len() == w,
        forall|j: int| 0 <= j < b.len() ==> (#[trigger] b[j]).len() == w,
        flat_layer(a) == flat_layer(b),
    ensures
        a == b,
    decreases a.len(),
{
    if a.len() > 0 {
        let (a0, b0) = (a.drop_last(), b.drop_last());
        lemma_flat_layer_len(a0, w);
        lemma_flat_layer_len(b0, w);
        let n = flat_layer(a0).len();
        assert(flat_layer(a) == flat_layer(a0) + a.last());
        assert(flat_layer(b) == flat_layer(b0) + b.last());
        assert(flat_layer(a0) =~= flat_layer(a).subrange(0, n as int));
        assert(flat_layer(b0) =~= flat_layer(b).subrange(0, n as int));
        assert(a.last() =~= flat_layer(a).subrange(n as int, (n + w) as int));
        assert(b.last() =~= flat_layer(b).subrange(n as int, (n + w) as int));
        lemma_flat_layer_inj(a0, b0, w);
        assert(a =~= a0.push(a.last()));
        assert(b =~= b0.push(b.last()));
    }
}

proof fn lemma_flat_network_inj(a: Layers, b: Layers, widths: Seq<nat>)
    requires
        has_shape(a, widths),
        has_shape(b, widths),
        flat_network(a) == flat_network(b),
    ensures
        a == b,
    decreases a.len(),
{
    if a.len() > 0 {
        let l = a.len() - 1;
        let (a0, b0) = (a.drop_last(), b.drop_last());
        assert(has_shape(a0, widths.drop_last()));
        assert(has_shape(b0, widths.drop_last()));
        assert(forall|j: int| 0 <= j < a.last().len() ==> (#[trigger] a.last()[j]).len() == widths[l]);
        assert(forall|j: int| 0 <= j < b.last().len() ==> (#[trigger] b.last()[j]).len() == widths[l]);
        lemma_flat_layer_len(a.last(), widths[l]);
        lemma_flat_layer_len(b.last(), widths[l]);
        let fa = flat_network(a);
        let na = flat_network(a0).len();
        let nb = flat_network(b0).len();
        assert(fa == flat_network(a0) + flat_layer(a.last()));
        assert(fa == flat_network(b0) + flat_layer(b.last()));
        assert(na == nb);
        assert(flat_network(a0) =~= fa.subrange(0, na as int));
        assert(flat_network(b0) =~= fa.subrange(0, na as int));
        assert(flat_layer(a.last()) =~= fa.subrange(na as int, fa.len() as int));
        assert(flat_layer(b.last()) =~= fa.subrange(na as int, fa.len() as int));
        lemma_flat_network_inj(a0, b0, widths.drop_last());
        lemma_flat_layer_inj(a.last(), b.last(), widths[l]);
        assert(a =~= a0.push(a.last()));
        assert(b =~= b0.push(b.last()));
    }
}

proof fn lemma_encode_push(s: Seq<NeuronConnection>, c: NeuronConnection)
    ensures
        encode(s.push(c)) == encode(s) + synapse_bytes(c),
{
    assert(s.push(c).drop_last() =~= s);
}

proof fn lemma_synapse_count_prefix(widths: Seq<nat>, m: int)
    requires
        0 <= m <= widths.len(),
    ensures
        synapse_count(widths.take(m)) <= synapse_count(widths),
    decreases widths.len(),
{
    if m < widths.len() {
        assert(widths.drop_last().take(m) =~= widths.take(m));
        lemma_synapse_count_prefix(widths.drop_last(), m);
    } else {
        assert(widths.take(m) =~= widths);
    }
}

proof fn lemma_arch_index(layer_sizes: Seq<usize>, num_inputs: usize, num_outputs: usize, i: int)
    requires
        0 <= i < layer_sizes.len() + 2,
    ensures
        arch(layer_sizes, num_inputs, num_outputs).len() == layer_sizes.len() + 2,
        arch(layer_sizes, num_inputs, num_outputs)[i] == if i == 0 {
            num_inputs
        } else if i == layer_sizes.len() + 1 {
            num_outputs
        } else {
            layer_sizes[i - 1]
        },
{
    let m = layer_sizes.map_values(|w: usize| w as nat);
    let front = seq![num_inputs as nat] + m;
    assert(arch(layer_sizes, num_inputs, num_outputs) == front + seq![num_outputs as nat]);
    if i < front.len() && i > 0 {
        assert(front[i] == m[i - 1]);
    }
}

/// The widths of the architecture, as a vector.
fn arch_widths(layer_sizes: &Vec<usize>, num_inputs: usize, num_outputs: usize) -> (r: Vec<usize>)
    ensures
        r@.map_values(|w: usize| w as nat) == arch(layer_sizes@, num_inputs, num_outputs),
{
    let mut r: Vec<usize> = Vec::new();
    r.push(num_inputs);
    let mut i: usize = 0;
    while i < layer_sizes.len()
        invariant
            i <= layer_sizes@.len(),
            r@ == seq![num_inputs] + layer_sizes@.take(i as int),
        decreases layer_sizes@.len() - i,
    {
        r.push(layer_sizes[i]);
        assert(layer_sizes@.take(i + 1) =~= layer_sizes@.take(i as int).push(layer_sizes@[i as int]));
        assert(r@ =~= seq![num_inputs] + layer_sizes@.take(i + 1));
        i += 1;
    }
    r.push(num_outputs);
    assert(layer_sizes@.take(layer_sizes@.len() as int) =~= layer_sizes@);
    assert(r@.map_values(|w: usize| w as nat) =~= arch(layer_sizes@, num_inputs, num_outputs));
    r
}

/// A node of `width` synapses, read from synapse `k` of the buffer on.
fn read_node(bytes: &Vec<u8>, k: usize, width: usize) -> (r: NeuronConnectionSet)
    requires
        16 * (k + width) <= bytes@.len(),
    ensures
        r@ == decode(bytes@).subrange(k as int, k + width),
{
    let _n = bytes.len();
    let mut conns: Vec<NeuronConnection> = Vec::new();
    let mut i: usize = 0;
    while i < width
        invariant
            16 * (k + width) <= bytes@.len(),
            bytes@.len() <= usize::MAX,
            i <= width,
            conns@ == decode(bytes@).subrange(k as int, k + i),
        decreases width - i,
    {
        let at = 16 * (k + i);
        let weight = read_be(bytes, at);
        let offset = read_be(bytes, at + 8);
        conns.push(NeuronConnection { weight, offset });
        assert(decode(bytes@)[k + i] == decode_at(bytes@, k + i));
        assert(conns@ =~= decode(bytes@).subrange(k as int, k + i + 1));
        i += 1;
    }
    NeuronConnectionSet { conns }
}

/// A layer of `nodes` nodes of `width` synapses, read from synapse `k` of the
/// buffer on.
fn read_layer(bytes: &Vec<u8>, k: usize, nodes: usize, width: usize) -> (r: NeuronConnectionMap)
    requires
        16 * (k + nodes * width) <= bytes@.len(),
    ensures
        r@.len() == nodes,
        forall|j: int| 0 <= j < nodes ==> (#[trigger] r@[j]).len() == width,
        flat_layer(r@) == decode(bytes@).subrange(k as int, k + nodes * width),
{
    let _n = bytes.len();
    let mut map: Vec<NeuronConnectionSet> = Vec::new();
    let mut pos = k;
    let mut j: usize = 0;
    while j < nodes
        invariant
            16 * (k + nodes * width) <= bytes@.len(),
            bytes@.len() <= usize::MAX,
            j <= nodes,
            pos == k + j * width,
            map@.len() == j,
            forall|q: int| 0 <= q < j ==> (#[trigger] map@[q])@.len() == width,
            flat_layer(map@.map_values(|s: NeuronConnectionSet| s@)) == decode(bytes@).subrange(
                k as int,
                pos as int,
            ),
        decreases nodes - j,
    {
        assert((j + 1) * width <= nodes * width) by (nonlinear_arith)
            requires
                j < nodes,
        ;
        assert((j + 1) * width == j * width + width) by (nonlinear_arith);
        let node = read_node(bytes, pos, width);
        let ghost before = map@.map_values(|s: NeuronConnectionSet| s@);
        map.push(node);
        let ghost after = map@.map_values(|s: NeuronConnectionSet| s@);
        assert(after.drop_last() =~= before);
        assert(flat_layer(after) == flat_layer(before) + node@);
        assert(flat_layer(after) =~= decode(bytes@).subrange(k as int, pos + width));
        pos = pos + width;
        j += 1;
    }
    NeuronConnectionMap { map }
}

impl Network {
    /// The model bytes of the network: every synapse in layer, node, synapse
    /// order, as the doubles of its weight then its offset, eight big-endian
    /// bytes each.
    pub fn to_bytes(&self) -> (r: Vec<u8>)
        ensures
            r@ == encode(flat_network(self@)),
    {
        let mut out: Vec<u8> = Vec::new();
        let nl = self.layers.len();
        let mut l: usize = 0;
        while l < nl
            invariant
                nl == self@.len(),
                l <= nl,
                out@ == encode(flat_network(self@.take(l as int))),
            decreases nl - l,
        {
            let layer = &self.layers[l];
            assert(layer@ == self@[l as int]);
            let ghost pre = flat_network(self@.take(l as int));
            let nn = layer.map.len();
            let mut j: usize = 0;
            while j < nn
                invariant
                    nn == layer@.len(),
                    j <= nn,
                    out@ == encode(pre + flat_layer(layer@.take(j as int))),
                decreases nn - j,
            {
                let node = &layer.map[j];
                assert(node@ == layer@[j as int]);
                let ghost pre2 = pre + flat_layer(layer@.take(j as int));
                let nc = node.conns.len();
                let mut i: usize = 0;
                while i < nc
                    invariant
                        nc == node@.len(),
                        i <= nc,
                        out@ == encode(pre2 + node@.take(i as int)),
                    decreases nc - i,
                {
                    let c = node.conns[i];
                    push_be(&mut out, c.weight);
                    push_be(&mut out, c.offset);
                    proof {
                        let y = pre2 + node@.take(i as int);
                        lemma_encode_push(y, c);
                        assert(pre2 + node@.take(i + 1) =~= y.push(c));
                        assert(out@ =~= encode(y) + synapse_bytes(c));
                    }
                    i += 1;
                }
                assert(layer@.take(j + 1).drop_last() =~= layer@.take(j as int));
                assert(node@.take(nc as int) =~= node@);
                assert(pre + flat_layer(layer@.take(j + 1)) =~= pre2 + node@.take(nc as int));
                j += 1;
            }
            assert(self@.take(l + 1).drop_last() =~= self@.take(l as int));
            assert(layer@.take(nn as int) =~= layer@);
            assert(flat_network(self@.take(l + 1)) == pre + flat_layer(layer@));
            l += 1;
        }
        assert(self@.take(nl as int) =~= self@);
        out
    }

    /// Reads a network of the architecture `num_inputs`, `layer_sizes`,
    /// `num_outputs` from model bytes; fails unless the buffer holds exactly
    /// sixteen bytes per synapse of that architecture.
    pub fn from_bytes(bytes: &Vec<u8>, layer_sizes: &Vec<usize>, num_inputs: usize, num_outputs: usize) -> (r:
        Result<Network, ModelError>)
        requires
            num_inputs <= MAX_WIDTH,
            num_outputs <= MAX_WIDTH,
            forall|i: int| 0 <= i < layer_sizes@.len() ==> #[trigger] layer_sizes@[i] <= MAX_WIDTH,
        ensures
            bytes@.len() != 16 * synapse_count(arch(layer_sizes@, num_inputs, num_outputs)) ==> r == Err::<
                Network,
                ModelError,
            >(ModelError::WrongLength),
            bytes@.len() == 16 * synapse_count(arch(layer_sizes@, num_inputs, num_outputs)) ==> r is Ok,
            r matches Ok(net) ==> {
                &&& net.wf()
                &&& net.widths() == arch(layer_sizes@, num_inputs, num_outputs)
                &&& flat_network(net@) == decode(bytes@)
            },
    {
        let ghost widths = arch(layer_sizes@, num_inputs, num_outputs);
        let ws = arch_widths(layer_sizes, num_inputs, num_outputs);
        proof {
            lemma_arch_index(layer_sizes@, num_inputs, num_outputs, 0);
            assert(ws@.map_values(|w: usize| w as nat).len() == ws@.len());
        }
        assert(forall|i: int| 0 <= i < ws@.len() ==> #[trigger] ws@[i] as nat == widths[i]);
        assert(forall|i: int| 0 <= i < ws@.len() ==> #[trigger] ws@[i] <= MAX_WIDTH) by {
            assert forall|i: int| 0 <= i < ws@.len() implies #[trigger] ws@[i] <= MAX_WIDTH by {
                assert(ws@[i] as nat == widths[i]);
                lemma_arch_index(layer_sizes@, num_inputs, num_outputs, i);
            }
        }
        let nw = ws.len();
        // The synapse count, in a type wide enough that it cannot overflow.
        let mut total: u128 = 0;
        let mut l: usize = 1;
        while l < nw
            invariant
                nw == ws@.len(),
                nw == widths.len(),
                forall|i: int| 0 <= i < nw ==> #[trigger] ws@[i] as nat == widths[i],
                forall|i: int| 0 <= i < nw ==> #[trigger] ws@[i] <= MAX_WIDTH,
                1 <= l <= nw,
                total == synapse_count(widths.take(l as int)),
                total <= l * 0x100_0000_0000_0000,
            decreases nw - l,
        {
            let a = ws[l - 1];
            let b = ws[l];
            assert(a * b <= 0x100_0000_0000_0000) by (nonlinear_arith)
                requires
                    a <= MAX_WIDTH,
                    b <= MAX_WIDTH,
            ;
            assert(widths.take(l + 1).drop_last() =~= widths.take(l as int));
            total = total + (a as u128) * (b as u128);
            l += 1;
        }
        assert(widths.take(nw as int) =~= widths);
        if total * 16 != bytes.len() as u128 {
            return Err(ModelError::WrongLength);
        }
        let _n = bytes.len();
        let mut layers: Vec<NeuronConnectionMap> = Vec::new();
        let mut k: usize = 0;
        let mut l: usize = 1;
        while l < nw
            invariant
                nw == ws@.len(),
                nw == widths.len(),
                widths == arch(layer_sizes@, num_inputs, num_outputs),
                forall|i: int| 0 <= i < nw ==> #[trigger] ws@[i] as nat == widths[i],
                forall|i: int| 0 <= i < nw ==> #[trigger] ws@[i] <= MAX_WIDTH,
                bytes@.len() == 16 * synapse_count(widths),
                bytes@.len() <= usize::MAX,
                1 <= l <= nw,
                k == synapse_count(widths.take(l as int)),
                layers@.len() == l - 1,
                has_shape(layers@.map_values(|m: NeuronConnectionMap| m@), widths.take(l as int)),
                flat_network(layers@.map_values(|m: NeuronConnectionMap| m@)) == decode(bytes@).subrange(0, k as int),
            decreases nw - l,
        {
            let w = ws[l - 1];
            let nodes = ws[l];
            assert(widths.take(l + 1).drop_last() =~= widths.take(l as int));
            proof { lemma_synapse_count_prefix(widths, l + 1); }
            assert(synapse_count(widths.take(l + 1)) == k + w * nodes);
            assert(w * nodes == nodes * w) by (nonlinear_arith);
            let layer = read_layer(bytes, k, nodes, w);
            let ghost before = layers@.map_values(|m: NeuronConnectionMap| m@);
            layers.push(layer);
            let ghost after = layers@.map_values(|m: NeuronConnectionMap| m@);
            assert(after.drop_last() =~= before);
            assert(after.last() == layer@);
            assert(flat_network(after) =~= decode(bytes@).subrange(0, k + nodes * w));
            assert(has_shape(after, widths.take(l + 1))) by {
                assert forall|q: int| 0 <= q < after.len() implies (#[trigger] after[q]).len() == widths.take(
                    l + 1,
                )[q + 1] by {
                    if q < after.len() - 1 {
                        assert(after[q] == before[q]);
                    }
                }
                assert forall|q: int, j: int| 0 <= q < after.len() && 0 <= j < after[q].len() implies (
                #[trigger] after[q][j]).len() == widths.take(l + 1)[q] by {
                    if q < after.len() - 1 {
                        assert(after[q] == before[q]);
                    }
                }
            }
            assert(k + nodes * w <= synapse_count(widths));
            k = k + nodes * w;
            l += 1;
        }
        let net = Network { layers, num_inputs };
        proof {
            assert(widths.take(nw as int) =~= widths);
            assert(net@ == layers@.map_values(|m: NeuronConnectionMap| m@));
            lemma_encode_len(seq![]);
            assert(decode(bytes@).len() == k);
            assert(decode(bytes@).subrange(0, k as int) =~= decode(bytes@));
            assert(net.widths() =~= widths) by {
                assert forall|q: int| 0 <= q < widths.len() implies net.widths()[q] == widths[q] by {
                    if q > 0 {
                        assert(net@[q - 1].len() == widths[q]);
                    }
                }
            }
        }
        Ok(net)
    }
}

proof fn lemma_flat_network_len(layers: Layers, widths: Seq<nat>)
    requires
        has_shape(layers, widths),
    ensures
        flat_network(layers).len() == synapse_count(widths),
    decreases layers.len(),
{
    if layers.len() > 0 {
        let l = layers.len() - 1;
        assert(has_shape(layers.drop_last(), widths.drop_last()));
        lemma_flat_network_len(layers.drop_last(), widths.drop_last());
        assert(forall|j: int|
            0 <= j < layers.last().len() ==> (#[trigger] layers.last()[j]).len() == widths[l]);
        lemma_flat_layer_len(layers.last(), widths[l]);
        assert(layers.last().len() * widths[l] == widths[l] * widths[l + 1]) by (nonlinear_arith)
            requires
                layers.last().len() == widths[l + 1],
        ;
    } else {
        assert(widths.len() == 1);
    }
}

/// Round trip of the model format. The bytes of a well-formed network have
/// the length that its own architecture asks for, so reading them back with
/// that architecture succeeds; and a network read back from them has every
/// synapse of the network it was written from, bit for bit, in place.
pub proof fn lemma_round_trip(net: Network, back: Network)
    requires
        net.wf(),
    ensures
        encode(flat_network(net@)).len() == 16 * synapse_count(net.widths()),
        back.wf() && back.widths() == net.widths() && flat_network(back@) == decode(encode(flat_network(net@)))
            ==> back@ == net@,
{
    lemma_flat_network_len(net@, net.widths());
    lemma_encode_len(flat_network(net@));
    if back.wf() && back.widths() == net.widths() && flat_network(back@) == decode(
        encode(flat_network(net@)),
    ) {
        lemma_decode_encode(flat_network(net@));
        lemma_flat_network_inj(back@, net@, net.widths());
    }
}

proof fn lemma_from_be_bytes(b: Seq<u8>)
    requires
        b.len() == 8,
    ensures
        be_bytes(from_be(b)) == b,
{
    let (b0, b1, b2, b3, b4, b5, b6, b7) = (b[0], b[1], b[2], b[3], b[4], b[5], b[6], b[7]);
    let u = from_be(b);
    assert(u == ((b0 as u64) << 56u64) | ((b1 as u64) << 48u64) | ((b2 as u64) << 40u64) | ((b3 as u64) << 32u64)
        | ((b4 as u64) << 24u64) | ((b5 as u64) << 16u64) | ((b6 as u64) << 8u64) | (b7 as u64));
    assert((u >> 56u64) as u8 == b0 && (u >> 48u64) as u8 == b1 && (u >> 40u64) as u8 == b2 && (u >> 32u64) as u8
        == b3 && (u >> 24u64) as u8 == b4 && (u >> 16u64) as u8 == b5 && (u >> 8u64) as u8 == b6 && u as u8 == b7)
        by (bit_vector)
        requires
            u == ((b0 as u64) << 56u64) | ((b1 as u64) << 48u64) | ((b2 as u64) << 40u64) | ((b3 as u64) << 32u64)
                | ((b4 as u64) << 24u64) | ((b5 as u64) << 16u64) | ((b6 as u64) << 8u64) | (b7 as u64),
    ;
    assert(be_bytes(u) =~= b);
}

/// Encoding the synapses that a buffer of whole sixteen-byte records holds
/// gives the buffer back: every byte, NaN patterns included, is kept.
pub proof fn lemma_encode_decode(bytes: Seq<u8>)
    requires
        bytes.len() % 16 == 0,
    ensures
        encode(decode(bytes)) == bytes,
{
    let s = decode(bytes);
    let e = encode(s);
    lemma_encode_len(s);
    assert forall|i: int| 0 <= i < bytes.len() implies e[i] == bytes[i] by {
        let k = i / 16;
        lemma_encode_at(s, k);
        let rec = bytes.subrange(16 * k, 16 * k + 16);
        lemma_from_be_bytes(rec.subrange(0, 8));
        lemma_from_be_bytes(rec.subrange(8, 16));
        assert(bytes.subrange(16 * k, 16 * k + 8) =~= rec.subrange(0, 8));
        assert(bytes.subrange(16 * k + 8, 16 * k + 16) =~= rec.subrange(8, 16));
        assert(synapse_bytes(s[k]) =~= rec);
        assert(e.subrange(16 * k, 16 * k + 16)[i - 16 * k] == e[i]);
    }
    assert(e =~= bytes);
}

/// Loading then saving keeps a model file: a network read from bytes of
/// the right length for its architecture writes those same bytes.
pub proof fn lemma_load_save(bytes: Seq<u8>, back: Network)
    requires
        bytes.len() == 16 * synapse_count(back.widths()),
        flat_network(back@) == decode(bytes),
    ensures
        encode(flat_network(back@)) == bytes,
{
    assert(bytes.len() % 16 == 0);
    lemma_encode_decode(bytes);
}

} // verus!
