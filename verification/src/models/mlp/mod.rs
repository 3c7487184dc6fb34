//! A multi-layer perceptron: its layer structure, the architecture it is built
//! from, and its model file format.
pub mod activation;

use vstd::prelude::*;
use vstd::utf8::*;
use crate::codec::{
    agrees, enc_header, enc_matrix, enc_name, enc_words, le_u32, lemma_enc_words_len,
    lemma_take_words_fields, u32_at, words_stored_at,
    lemma_header_written, lemma_take_matrix_written, lemma_take_name_written,
    lemma_take_u32_written, lemma_take_words_written, matrix_fits, put_header, put_matrix,
    put_name, put_u32, put_words, read_magic, read_matrix, read_name, read_u32, read_version,
    read_words, take_magic, take_name, take_u32, take_version, take_words, DecodeError,
    DecodeErrorV, Parsed,
};
use crate::tensor::{Matrix, MatrixV};
use self::activation::{activation_named, lookup, unknown_activation_message, Activation};

verus! {

/// A dense layer: `weights` is `n_inputs x n_outputs`, `biases` is `1 x n_outputs`.
pub struct Layer<T> {
    pub weights: Matrix<T>,
    pub biases: Matrix<T>,
    pub activation: Activation,
    pub activation_name: String,
}

/// The mathematical content of a layer.
pub struct LayerV<T> {
    pub weights: MatrixV<T>,
    pub biases: MatrixV<T>,
    pub activation: Activation,
    pub activation_name: Seq<char>,
}

impl<T> View for Layer<T> {
    type V = LayerV<T>;

    open spec fn view(&self) -> LayerV<T> {
        LayerV {
            weights: self.weights@,
            biases: self.biases@,
            activation: self.activation,
            activation_name: self.activation_name@,
        }
    }
}

/// A multi-layer perceptron: its layers, from input to output.
pub struct MLP<T> {
    pub layers: Vec<Layer<T>>,
}

impl<T> View for MLP<T> {
    type V = Seq<LayerV<T>>;

    open spec fn view(&self) -> Seq<LayerV<T>> {
        self.layers@.map_values(|l: Layer<T>| l@)
    }
}

/// The shape and activation of one layer of an architecture.
#[derive(Debug, Clone, Copy, PartialEq, Eq, Structural)]
pub struct LayerShape {
    pub n_inputs: usize,
    pub n_outputs: usize,
    pub activation: Activation,
}

/// Layer `k` of an architecture goes from size `k` to size `k + 1` with the
/// activation `act`.
pub open spec fn hidden_shape_ok(s: LayerShape, sizes: Seq<usize>, k: int, act: Option<Activation>) -> bool {
    &&& s.n_inputs == sizes[k]
    &&& s.n_outputs == sizes[k + 1]
    &&& act == Some(s.activation)
}

/// The layers that an MLP with the given layer sizes has: one per consecutive
/// pair of sizes, the hidden ones using `activation` and the last one using
/// `output_activation`.
///
/// Both names must be known activations, whatever the number of layers; an
/// unknown hidden activation name is reported first, then an unknown output
/// activation name.
pub fn plan_layers(layers_sizes: &[usize], activation: &str, output_activation: &str) -> (r: Result<
    Vec<LayerShape>,
    String,
>)
    requires
        layers_sizes@.len() >= 2,
    ensures
        activation_named(activation@) is None ==> (r matches Err(msg) && msg@
            == unknown_activation_message(activation@)),
        activation_named(activation@) is Some && activation_named(output_activation@) is None ==> (
        r matches Err(msg) && msg@ == unknown_activation_message(output_activation@)),
        activation_named(activation@) is Some && activation_named(output_activation@) is Some ==> (
        r matches Ok(v) && v@.len() == layers_sizes@.len() - 1 && forall|i: int|
            0 <= i < v@.len() ==> {
                &&& #[trigger] v@[i].n_inputs == layers_sizes@[i]
                &&& v@[i].n_outputs == layers_sizes@[i + 1]
                &&& i + 2 < layers_sizes@.len() ==> activation_named(activation@) == Some(
                    v@[i].activation,
                )
                &&& i + 2 == layers_sizes@.len() ==> activation_named(output_activation@) == Some(
                    v@[i].activation,
                )
            }),
{
    let hidden = match lookup(activation) {
        Ok(a) => a,
        Err(msg) => {
            return Err(msg);
        },
    };
    let out = match lookup(output_activation) {
        Ok(a) => a,
        Err(msg) => {
            return Err(msg);
        },
    };
    let n = layers_sizes.len();
    let mut shapes: Vec<LayerShape> = Vec::new();
    let mut i: usize = 0;
    while i < n - 2
        invariant
            n == layers_sizes@.len(),
            n >= 2,
            i <= n - 2,
            activation_named(activation@) == Some(hidden),
            shapes@.len() == i,
            forall|k: int|
                0 <= k < i ==> hidden_shape_ok(
                    #[trigger] shapes@[k],
                    layers_sizes@,
                    k,
                    activation_named(activation@),
                ),
        decreases n - 2 - i,
    {
        let ghost prev = shapes@;
        shapes.push(LayerShape { n_inputs: layers_sizes[i], n_outputs: layers_sizes[i + 1], activation: hidden });
        i = i + 1;
        proof {
            assert forall|k: int| 0 <= k < i implies hidden_shape_ok(
                #[trigger] shapes@[k],
                layers_sizes@,
                k,
                activation_named(activation@),
            ) by {
                if k < i - 1 {
                    assert(shapes@[k] == prev[k]);
                }
            }
        }
    }
    let last = n - 1;
    shapes.push(LayerShape { n_inputs: layers_sizes[last - 1], n_outputs: layers_sizes[last], activation: out });
    Ok(shapes)
}

// ---------------------------------------------------------------------------
// Model file format:
//   "MLPv", version 1 (u32), layer count (u32), then for each layer:
//   activation name (u32 length + UTF-8 bytes), weight rows (u32),
//   weight columns (u32), the weights, then one bias per column.
// Every number is little-endian; weights and biases are stored as the 32-bit
// patterns of their values.
// ---------------------------------------------------------------------------

/// The tag that starts an MLP model file: "MLPv".
pub open spec fn mlp_magic() -> Seq<u8> {
    seq![0x4Du8, 0x4Cu8, 0x50u8, 0x76u8]
}

/// Reads one layer.
pub open spec fn take_layer(b: Seq<u8>, pos: int) -> Parsed<LayerV<u32>> {
    match take_name(b, pos) {
        Ok((name, p1)) => match activation_named(name) {
            Some(a) => match take_u32(b, p1) {
                Ok((rows, p2)) => match take_u32(b, p2) {
                    Ok((cols, p3)) => match take_words(b, p3, rows * cols) {
                        Ok((w, p4)) => match take_words(b, p4, cols as int) {
                            Ok((bias, p5)) => Ok(
                                (
                                    LayerV {
                                        weights: MatrixV { rows: rows as nat, cols: cols as nat, data: w },
                                        biases: MatrixV { rows: 1, cols: cols as nat, data: bias },
                                        activation: a,
                                        activation_name: name,
                                    },
                                    p5,
                                ),
                            ),
                            Err(e) => Err(e),
                        },
                        Err(e) => Err(e),
                    },
                    Err(e) => Err(e),
                },
                Err(e) => Err(e),
            },
            None => Err(DecodeErrorV::UnknownActivation(name)),
        },
        Err(e) => Err(e),
    }
}

/// Reads `k` layers one after the other.
pub open spec fn take_layers(b: Seq<u8>, pos: int, k: nat) -> Parsed<Seq<LayerV<u32>>>
    decreases k,
{
    if k == 0 {
        Ok((Seq::empty(), pos))
    } else {
        match take_layers(b, pos, (k - 1) as nat) {
            Ok((ls, p)) => match take_layer(b, p) {
                Ok((l, p2)) => Ok((ls.push(l), p2)),
                Err(e) => Err(e),
            },
            Err(e) => Err(e),
        }
    }
}

/// What an MLP model file holds, or why it cannot be read. Bytes after the
/// last layer are ignored.
pub open spec fn parse_mlp(b: Seq<u8>) -> Result<Seq<LayerV<u32>>, DecodeErrorV> {
    match take_magic(b, mlp_magic()) {
        Ok((_, p0)) => match take_version(b, p0) {
            Ok((_, p1)) => match take_u32(b, p1) {
                Ok((n, p2)) => match take_layers(b, p2, n as nat) {
                    Ok((ls, _)) => Ok(ls),
                    Err(e) => Err(e),
                },
                Err(e) => Err(e),
            },
            Err(e) => Err(e),
        },
        Err(e) => Err(e),
    }
}

/// The bytes of one layer.
pub open spec fn enc_layer(l: LayerV<u32>) -> Seq<u8> {
    enc_name(l.activation_name) + enc_matrix(l.weights) + enc_words(l.biases.data)
}

/// The bytes of a run of layers.
pub open spec fn enc_layers(ls: Seq<LayerV<u32>>) -> Seq<u8>
    decreases ls.len(),
{
    if ls.len() == 0 {
        Seq::empty()
    } else {
        enc_layers(ls.drop_last()) + enc_layer(ls.last())
    }
}

/// The bytes of an MLP model file.
pub open spec fn enc_mlp(ls: Seq<LayerV<u32>>) -> Seq<u8> {
    enc_header(mlp_magic()) + le_u32(ls.len() as u32) + enc_layers(ls)
}

/// A layer that the file format holds and reads back unchanged.
pub open spec fn layer_fits(l: LayerV<u32>) -> bool {
    &&& matrix_fits(l.weights)
    &&& l.biases.rows == 1
    &&& l.biases.cols == l.weights.cols
    &&& l.biases.data.len() == l.weights.cols
    &&& encode_utf8(l.activation_name).len() <= u32::MAX
    &&& activation_named(l.activation_name) == Some(l.activation)
}

/// An MLP that the file format holds and reads back unchanged.
pub open spec fn mlp_fits(ls: Seq<LayerV<u32>>) -> bool {
    &&& ls.len() <= u32::MAX
    &&& forall|i: int| 0 <= i < ls.len() ==> layer_fits(#[trigger] ls[i])
}

/// A written layer is read back.
pub proof fn lemma_take_layer_written(b: Seq<u8>, pos: int, l: LayerV<u32>)
    requires
        0 <= pos,
        layer_fits(l),
        pos + enc_layer(l).len() <= b.len(),
        b.subrange(pos, pos + enc_layer(l).len()) == enc_layer(l),
    ensures
        take_layer(b, pos) == Ok::<(LayerV<u32>, int), DecodeErrorV>((l, pos + enc_layer(l).len())),
{
    let whole = b.subrange(pos, pos + enc_layer(l).len());
    let nm = enc_name(l.activation_name);
    let mt = enc_matrix(l.weights);
    let bs = enc_words(l.biases.data);
    let a = nm.len() as int;
    let c = mt.len() as int;
    let d = bs.len() as int;
    lemma_enc_words_len(l.weights.data);
    lemma_enc_words_len(l.biases.data);
    assert(b.subrange(pos, pos + a) == whole.subrange(0, a));
    assert(enc_layer(l).subrange(0, a) == nm);
    lemma_take_name_written(b, pos, l.activation_name);
    let p1 = pos + a;
    assert(b.subrange(p1, p1 + c) == whole.subrange(a, a + c));
    assert(enc_layer(l).subrange(a, a + c) == mt);
    lemma_take_matrix_written(b, p1, l.weights);
    let p4 = p1 + c;
    assert(b.subrange(p4, p4 + d) == whole.subrange(a + c, a + c + d));
    assert(enc_layer(l).subrange(a + c, a + c + d) == bs);
    lemma_take_words_written(b, p4, l.biases.data);
}

/// Consecutive written layers are read back.
pub proof fn lemma_take_layers_written(b: Seq<u8>, pos: int, ls: Seq<LayerV<u32>>)
    requires
        0 <= pos,
        forall|i: int| 0 <= i < ls.len() ==> layer_fits(#[trigger] ls[i]),
        pos + enc_layers(ls).len() <= b.len(),
        b.subrange(pos, pos + enc_layers(ls).len()) == enc_layers(ls),
    ensures
        take_layers(b, pos, ls.len()) == Ok::<(Seq<LayerV<u32>>, int), DecodeErrorV>(
            (ls, pos + enc_layers(ls).len()),
        ),
    decreases ls.len(),
{
    if ls.len() > 0 {
        let front = ls.drop_last();
        let ef = enc_layers(front);
        let el = enc_layer(ls.last());
        assert(enc_layers(ls) == ef + el);
        assert(b.subrange(pos, pos + ef.len()) == b.subrange(pos, pos + enc_layers(ls).len()).subrange(
            0,
            ef.len() as int,
        ));
        assert((ef + el).subrange(0, ef.len() as int) == ef);
        assert forall|i: int| 0 <= i < front.len() implies layer_fits(#[trigger] front[i]) by {
            assert(front[i] == ls[i]);
        }
        lemma_take_layers_written(b, pos, front);
        let p = pos + ef.len();
        let x = ef.len() as int;
        let y = el.len() as int;
        assert(b.subrange(p, p + y) == b.subrange(pos, pos + enc_layers(ls).len()).subrange(x, x + y));
        assert((ef + el).subrange(x, x + y) == el);
        assert(layer_fits(ls[ls.len() - 1]));
        lemma_take_layer_written(b, p, ls.last());
        assert(front.push(ls.last()) == ls);
        assert(front.len() == (ls.len() - 1) as nat);
    } else {
        assert(ls == Seq::<LayerV<u32>>::empty());
    }
}

/// Law: an MLP written to bytes is read back unchanged, whatever follows it.
pub proof fn lemma_mlp_roundtrip(ls: Seq<LayerV<u32>>, rest: Seq<u8>)
    requires
        mlp_fits(ls),
    ensures
        parse_mlp(enc_mlp(ls) + rest) == Ok::<Seq<LayerV<u32>>, DecodeErrorV>(ls),
{
    let b = enc_mlp(ls) + rest;
    let h = enc_header(mlp_magic());
    let el = enc_layers(ls);
    assert(h.len() == 8);
    assert(b.subrange(0, 8) == h);
    lemma_header_written(b, mlp_magic());
    assert(b.subrange(8, 12) == le_u32(ls.len() as u32));
    lemma_take_u32_written(b, 8, ls.len() as u32);
    assert(b.subrange(12, 12 + el.len() as int) == el);
    lemma_take_layers_written(b, 12, ls);
}

/// Law (layout of one layer): the activation name's UTF-8 byte length and
/// bytes, the weight matrix's row count and column count, the weights row by
/// row, then the biases.
pub proof fn lemma_layer_layout(l: LayerV<u32>)
    ensures
        ({
            let e = enc_layer(l);
            let nb = encode_utf8(l.activation_name);
            let q: int = 4 + (nb.len() as int);
            let w: int = 4 * (l.weights.data.len() as int);
            let c: int = 4 * (l.biases.data.len() as int);
            &&& e.len() == q + 8 + w + c
            &&& e.subrange(0, 4) == le_u32(nb.len() as u32)
            &&& e.subrange(4, q) == nb
            &&& e.subrange(q, q + 4) == le_u32(l.weights.rows as u32)
            &&& e.subrange(q + 4, q + 8) == le_u32(l.weights.cols as u32)
            &&& e.subrange(q + 8, q + 8 + w) == enc_words(l.weights.data)
            &&& e.subrange(q + 8 + w, q + 8 + w + c) == enc_words(l.biases.data)
        }),
{
    lemma_enc_words_len(l.weights.data);
    lemma_enc_words_len(l.biases.data);
    let e = enc_layer(l);
    let nb = encode_utf8(l.activation_name);
    let q: int = 4 + (nb.len() as int);
    let w: int = 4 * (l.weights.data.len() as int);
    let c: int = 4 * (l.biases.data.len() as int);
    let parts = le_u32(nb.len() as u32) + nb + le_u32(l.weights.rows as u32) + le_u32(l.weights.cols as u32)
        + enc_words(l.weights.data) + enc_words(l.biases.data);
    assert(e =~= parts);
    assert(e.subrange(0, 4) =~= le_u32(nb.len() as u32));
    assert(e.subrange(4, q) =~= nb);
    assert(e.subrange(q, q + 4) =~= le_u32(l.weights.rows as u32));
    assert(e.subrange(q + 4, q + 8) =~= le_u32(l.weights.cols as u32));
    assert(e.subrange(q + 8, q + 8 + w) =~= enc_words(l.weights.data));
    assert(e.subrange(q + 8 + w, q + 8 + w + c) =~= enc_words(l.biases.data));
}

/// Law (reading one layer at `pos`): the word at `pos` is the byte length of
/// the activation name, whose UTF-8 bytes follow and name a known activation;
/// then come the weight matrix's row count `r` and column count `c`, its
/// `r * c` weights and `c` biases; reading ends after the biases.
pub proof fn lemma_layer_fields(b: Seq<u8>, pos: int)
    ensures
        take_layer(b, pos) matches Ok((l, p)) ==> {
            let q: int = pos + 4 + u32_at(b, pos);
            let r = l.weights.rows as int;
            let c = l.weights.cols as int;
            &&& 0 <= pos
            &&& q + 8 <= b.len()
            &&& valid_utf8(b.subrange(pos + 4, q))
            &&& l.activation_name == decode_utf8(b.subrange(pos + 4, q))
            &&& activation_named(l.activation_name) == Some(l.activation)
            &&& r == u32_at(b, q)
            &&& c == u32_at(b, q + 4)
            &&& l.weights.data.len() == r * c
            &&& words_stored_at(b, q + 8, l.weights.data)
            &&& l.biases.rows == 1
            &&& l.biases.cols == c
            &&& l.biases.data.len() == c
            &&& words_stored_at(b, q + 8 + 4 * (r * c), l.biases.data)
            &&& p == q + 8 + 4 * (r * c) + 4 * c
        },
{
    if take_layer(b, pos) is Ok {
        let q: int = pos + 4 + u32_at(b, pos);
        let r = u32_at(b, q);
        let c = u32_at(b, q + 4);
        lemma_take_words_fields(b, q + 8, r * c);
        lemma_take_words_fields(b, q + 8 + 4 * (r * c), c as int);
    }
}

/// Law: the bytes of a run of layers are the bytes of each layer, in order;
/// the bytes of two runs one after the other are those of the first run, then
/// those of the second.
pub proof fn lemma_enc_layers_concat(a: Seq<LayerV<u32>>, c: Seq<LayerV<u32>>)
    ensures
        enc_layers(a + c) == enc_layers(a) + enc_layers(c),
        forall|l: LayerV<u32>| #[trigger] enc_layers(seq![l]) == enc_layer(l),
    decreases c.len(),
{
    assert forall|l: LayerV<u32>| #[trigger] enc_layers(seq![l]) == enc_layer(l) by {
        let one = seq![l];
        assert(one.drop_last() =~= Seq::<LayerV<u32>>::empty());
        assert(one.last() == l);
        assert(enc_layers(Seq::<LayerV<u32>>::empty()) == Seq::<u8>::empty());
        assert(enc_layers(one) == enc_layers(one.drop_last()) + enc_layer(one.last()));
        assert(Seq::<u8>::empty() + enc_layer(l) =~= enc_layer(l));
    }
    if c.len() == 0 {
        assert(a + c =~= a);
        assert(enc_layers(a) + Seq::<u8>::empty() =~= enc_layers(a));
    } else {
        lemma_enc_layers_concat(a, c.drop_last());
        assert((a + c).drop_last() =~= a + c.drop_last());
        assert((a + c).last() == c.last());
        assert(enc_layers(a + c) =~= enc_layers(a) + enc_layers(c));
    }
}

/// Reading `k` layers from `pos` reads each layer where the one before it
/// ended: layer `i` is read at `ps[i]` and ends at `ps[i + 1]`, the first is
/// read at `pos` and the last ends where the run ends.
pub open spec fn layers_read_in_turn(b: Seq<u8>, pos: int, ls: Seq<LayerV<u32>>, end: int) -> bool {
    exists|ps: Seq<int>|
        {
            &&& #[trigger] ps.len() == ls.len() + 1
            &&& ps[0] == pos
            &&& ps[ls.len() as int] == end
            &&& forall|i: int|
                0 <= i < ls.len() ==> #[trigger] take_layer(b, ps[i]) == Ok::<
                    (LayerV<u32>, int),
                    DecodeErrorV,
                >((ls[i], ps[i + 1]))
        }
}

/// Law: a run of `k` layers read from `pos` holds `k` layers, read one after
/// the other.
pub proof fn lemma_take_layers_fields(b: Seq<u8>, pos: int, k: nat)
    ensures
        take_layers(b, pos, k) matches Ok((ls, p)) ==> ls.len() == k && layers_read_in_turn(
            b,
            pos,
            ls,
            p,
        ),
    decreases k,
{
    if k == 0 {
        let ps = seq![pos];
        assert(ps.len() == 0 + 1);
    } else {
        lemma_take_layers_fields(b, pos, (k - 1) as nat);
        if take_layers(b, pos, k) is Ok {
            let (front, p) = take_layers(b, pos, (k - 1) as nat)->Ok_0;
            let (l, p2) = take_layer(b, p)->Ok_0;
            let ps = choose|ps: Seq<int>|
                {
                    &&& #[trigger] ps.len() == front.len() + 1
                    &&& ps[0] == pos
                    &&& ps[front.len() as int] == p
                    &&& forall|i: int|
                        0 <= i < front.len() ==> #[trigger] take_layer(b, ps[i]) == Ok::<
                            (LayerV<u32>, int),
                            DecodeErrorV,
                        >((front[i], ps[i + 1]))
                };
            let ls = front.push(l);
            let qs = ps.push(p2);
            assert(qs.len() == ls.len() + 1);
            assert forall|i: int| 0 <= i < ls.len() implies #[trigger] take_layer(b, qs[i]) == Ok::<
                (LayerV<u32>, int),
                DecodeErrorV,
            >((ls[i], qs[i + 1])) by {
                if i < front.len() {
                    assert(qs[i] == ps[i] && qs[i + 1] == ps[i + 1] && ls[i] == front[i]);
                }
            }
        }
    }
}

/// Law (MLP file layout): the tag "MLPv", version 1, the layer count, then
/// each layer in order.
pub proof fn lemma_mlp_layout(ls: Seq<LayerV<u32>>)
    ensures
        ({
            let e = enc_mlp(ls);
            &&& 12 <= e.len()
            &&& e.subrange(0, 4) == seq![0x4Du8, 0x4Cu8, 0x50u8, 0x76u8]
            &&& e.subrange(4, 8) == le_u32(1)
            &&& e.subrange(8, 12) == le_u32(ls.len() as u32)
            &&& e.subrange(12, e.len() as int) == enc_layers(ls)
        }),
{
    let e = enc_mlp(ls);
    assert(e =~= seq![0x4Du8, 0x4Cu8, 0x50u8, 0x76u8] + le_u32(1) + le_u32(ls.len() as u32) + enc_layers(ls));
    assert(e.subrange(0, 4) =~= seq![0x4Du8, 0x4Cu8, 0x50u8, 0x76u8]);
    assert(e.subrange(4, 8) =~= le_u32(1));
    assert(e.subrange(8, 12) =~= le_u32(ls.len() as u32));
    assert(e.subrange(12, e.len() as int) =~= enc_layers(ls));
}

/// Law (reading an MLP file): the tag "MLPv" and version 1 in front, the
/// layer count in bytes 8..12, and the layers read one after the other from
/// byte 12.
pub proof fn lemma_mlp_fields(b: Seq<u8>)
    ensures
        parse_mlp(b) matches Ok(ls) ==> {
            &&& 12 <= b.len()
            &&& b.subrange(0, 4) == seq![0x4Du8, 0x4Cu8, 0x50u8, 0x76u8]
            &&& u32_at(b, 4) == 1
            &&& ls.len() == u32_at(b, 8)
            &&& exists|end: int| #[trigger] layers_read_in_turn(b, 12, ls, end)
        },
{
    lemma_take_layers_fields(b, 12, u32_at(b, 8) as nat);
    if parse_mlp(b) is Ok {
        let end = take_layers(b, 12, u32_at(b, 8) as nat)->Ok_0.1;
        assert(layers_read_in_turn(b, 12, parse_mlp(b)->Ok_0, end));
    }
}

impl MLP<u32> {
    /// The model file bytes of this MLP (weights as 32-bit patterns).
    pub fn to_bytes(&self) -> (b: Vec<u8>)
        ensures
            b@ == enc_mlp(self@),
            12 <= b@.len(),
            b@.subrange(0, 4) == seq![0x4Du8, 0x4Cu8, 0x50u8, 0x76u8],
            b@.subrange(4, 8) == le_u32(1),
            b@.subrange(8, 12) == le_u32(self.layers@.len() as u32),
            b@.subrange(12, b@.len() as int) == enc_layers(self@),
    {
        proof {
            lemma_mlp_layout(self@);
        }
        let mut buf: Vec<u8> = Vec::new();
        put_header(&mut buf, &[0x4Du8, 0x4Cu8, 0x50u8, 0x76u8]);
        assert([0x4Du8, 0x4Cu8, 0x50u8, 0x76u8]@ == mlp_magic());
        put_u32(&mut buf, self.layers.len() as u32);
        let ghost start = buf@;
        let n = self.layers.len();
        let mut i: usize = 0;
        while i < n
            invariant
                n == self.layers@.len(),
                i <= n,
                buf@ == start + enc_layers(self@.subrange(0, i as int)),
            decreases n - i,
        {
            let layer = &self.layers[i];
            put_name(&mut buf, layer.activation_name.as_str());
            put_matrix(&mut buf, &layer.weights);
            put_words(&mut buf, &layer.biases.data);
            proof {
                let s = self@.subrange(0, i + 1);
                assert(s.drop_last() == self@.subrange(0, i as int));
                assert(s.last() == self.layers@[i as int]@);
            }
            i = i + 1;
        }
        assert(self@.subrange(0, n as int) == self@);
        buf
    }

    /// Reads an MLP model file.
    pub fn from_bytes(b: &[u8]) -> (r: Result<MLP<u32>, DecodeError>)
        ensures
            match r {
                Ok(m) => parse_mlp(b@) == Ok::<Seq<LayerV<u32>>, DecodeErrorV>(m@),
                Err(e) => parse_mlp(b@) == Err::<Seq<LayerV<u32>>, DecodeErrorV>(e@),
            },
            r matches Ok(m) ==> {
                &&& 12 <= b@.len()
                &&& b@.subrange(0, 4) == seq![0x4Du8, 0x4Cu8, 0x50u8, 0x76u8]
                &&& u32_at(b@, 4) == 1
                &&& m@.len() == u32_at(b@, 8)
                &&& exists|end: int| #[trigger] layers_read_in_turn(b@, 12, m@, end)
            },
    {
        proof {
            lemma_mlp_fields(b@);
        }
        let (_, p0) = match read_magic(b, &[0x4Du8, 0x4Cu8, 0x50u8, 0x76u8]) {
            Ok(x) => x,
            Err(e) => {
                return Err(e);
            },
        };
        assert([0x4Du8, 0x4Cu8, 0x50u8, 0x76u8]@ == mlp_magic());
        let (_, p1) = match read_version(b, p0) {
            Ok(x) => x,
            Err(e) => {
                return Err(e);
            },
        };
        let (n, p2) = match read_u32(b, p1) {
            Ok(x) => x,
            Err(e) => {
                return Err(e);
            },
        };
        let mut layers: Vec<Layer<u32>> = Vec::new();
        let mut pos = p2;
        let mut i: u32 = 0;
        assert(layers@.map_values(|l: Layer<u32>| l@) == Seq::<LayerV<u32>>::empty());
        while i < n
            invariant
                i <= n,
                take_layers(b@, p2 as int, i as nat) == Ok::<(Seq<LayerV<u32>>, int), DecodeErrorV>(
                    (layers@.map_values(|l: Layer<u32>| l@), pos as int),
                ),
                parse_mlp(b@) == match take_layers(b@, p2 as int, n as nat) {
                    Ok((ls, _)) => Ok(ls),
                    Err(e) => Err::<Seq<LayerV<u32>>, DecodeErrorV>(e),
                },
            decreases n - i,
        {
            let ghost prev = layers@.map_values(|l: Layer<u32>| l@);
            let layer = match read_layer(b, pos) {
                Ok((l, p)) => {
                    pos = p;
                    l
                },
                Err(e) => {
                    proof {
                        lemma_take_layers_err_stays(b@, p2 as int, (i + 1) as nat, n as nat);
                    }
                    return Err(e);
                },
            };
            layers.push(layer);
            proof {
                assert(layers@.map_values(|l: Layer<u32>| l@) == prev.push(layer@));
            }
            i = i + 1;
        }
        Ok(MLP { layers })
    }
}

/// Once reading a run of layers fails, reading a longer run fails the same way.
pub proof fn lemma_take_layers_err_stays(b: Seq<u8>, pos: int, k: nat, n: nat)
    requires
        k <= n,
        take_layers(b, pos, k) is Err,
    ensures
        take_layers(b, pos, n) == take_layers(b, pos, k),
    decreases n - k,
{
    if k < n {
        lemma_take_layers_err_stays(b, pos, k, (n - 1) as nat);
    }
}

/// Reads one layer at `pos`.
pub fn read_layer(b: &[u8], pos: usize) -> (r: Result<(Layer<u32>, usize), DecodeError>)
    ensures
        agrees(r, take_layer(b@, pos as int)),
        r matches Ok((l, p)) ==> {
            let q: int = pos + 4 + u32_at(b@, pos as int);
            let rows = l.weights.rows as int;
            let cols = l.weights.cols as int;
            &&& q + 8 <= b@.len()
            &&& l.activation_name@ == decode_utf8(b@.subrange(pos + 4, q))
            &&& activation_named(l.activation_name@) == Some(l.activation)
            &&& rows == u32_at(b@, q)
            &&& cols == u32_at(b@, q + 4)
            &&& words_stored_at(b@, q + 8, l.weights.data@)
            &&& l.biases.rows == 1
            &&& l.biases.cols == cols
            &&& words_stored_at(b@, q + 8 + 4 * (rows * cols), l.biases.data@)
            &&& p == q + 8 + 4 * (rows * cols) + 4 * cols
        },
{
    proof {
        lemma_layer_fields(b@, pos as int);
    }
    let (name, p1) = match read_name(b, pos) {
        Ok(x) => x,
        Err(e) => {
            return Err(e);
        },
    };
    let activation = match lookup(name.as_str()) {
        Ok(a) => a,
        Err(_) => {
            return Err(DecodeError::UnknownActivation(name));
        },
    };
    let (weights, p4) = match read_matrix(b, p1) {
        Ok(x) => x,
        Err(e) => {
            return Err(e);
        },
    };
    let (bias, p5) = match read_words(b, p4, weights.cols as u64) {
        Ok(x) => x,
        Err(e) => {
            return Err(e);
        },
    };
    let cols = weights.cols;
    Ok((Layer { weights, biases: Matrix { data: bias, rows: 1, cols }, activation, activation_name: name }, p5))
}

} // verus!
