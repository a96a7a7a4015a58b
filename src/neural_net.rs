use crate::matrix::{accumulates, is_function3, lemma_accumulates_unique, Matrix, MatrixError};
use vstd::prelude::*;

verus! {

/// The node counts of all layers: the input layer, the hidden layers in
/// order, then the output layer.
pub open spec fn layer_sizes(input: u32, hidden: Seq<u32>, output: u32) -> Seq<u32> {
    seq![input] + hidden + seq![output]
}

/// Every layer has at least one node.
pub open spec fn all_positive(sizes: Seq<u32>) -> bool {
    forall|k: int| 0 <= k < sizes.len() ==> #[trigger] sizes[k] > 0
}

/// Every weight matrix between two neighbouring layers fits in memory.
pub open spec fn sizes_fit(sizes: Seq<u32>) -> bool {
    forall|k: int| 0 <= k < sizes.len() - 1 ==> #[trigger] sizes[k] * sizes[k + 1] <= usize::MAX
}

/// `out` is what one neuron with weights `ws` gives on the inputs `x`: the
/// weighted sum (a fold of `fma` from `z`), the bias added by `add_bias`, then
/// passed through `activate`.
pub open spec fn neuron<T, FM, FB, FA>(
    fma: FM,
    add_bias: FB,
    activate: FA,
    bias: u8,
    z: T,
    ws: Seq<T>,
    x: Seq<T>,
    out: T,
) -> bool where FM: Fn(T, T, T) -> T, FB: Fn(T, u8) -> T, FA: Fn(T) -> T {
    exists|sum: T, biased: T|
        #![trigger call_ensures(add_bias, (sum, bias), biased)]
        accumulates(fma, z, ws, x, ws.len(), sum) && call_ensures(add_bias, (sum, bias), biased)
            && call_ensures(activate, (biased,), out)
}

/// `y` is the output of the layer with weight matrix `w` on the input `x`:
/// one neuron per row of `w`, every weighted sum starting from `T`'s default.
pub open spec fn layer_step<T: Default, FM, FB, FA>(
    fma: FM,
    add_bias: FB,
    activate: FA,
    bias: u8,
    w: Matrix<T>,
    x: Seq<T>,
    y: Seq<T>,
) -> bool where FM: Fn(T, T, T) -> T, FB: Fn(T, u8) -> T, FA: Fn(T) -> T {
    &&& x.len() == w.ncols()
    &&& y.len() == w.nrows()
    &&& exists|z: T|
        call_ensures(T::default, (), z) && forall|i: int|
            0 <= i < y.len() ==> #[trigger] neuron(fma, add_bias, activate, bias, z, w.row(i), x, y[i])
}

/// Layer `k` of a trace of activations: `acts[k + 1]` is what `weights[k]`
/// makes of `acts[k]`.
pub open spec fn layer_link<T: Default, FM, FB, FA>(
    fma: FM,
    add_bias: FB,
    activate: FA,
    bias: u8,
    weights: Seq<Matrix<T>>,
    acts: Seq<Seq<T>>,
    k: int,
) -> bool where FM: Fn(T, T, T) -> T, FB: Fn(T, u8) -> T, FA: Fn(T) -> T {
    layer_step(fma, add_bias, activate, bias, weights[k], acts[k], acts[k + 1])
}

/// `output` is what the layers `weights` make of `input`, one after the
/// other: a trace of activations leads from `input` to `output`.
pub open spec fn propagates<T: Default, FM, FB, FA>(
    fma: FM,
    add_bias: FB,
    activate: FA,
    bias: u8,
    weights: Seq<Matrix<T>>,
    input: Seq<T>,
    output: Seq<T>,
) -> bool where FM: Fn(T, T, T) -> T, FB: Fn(T, u8) -> T, FA: Fn(T) -> T {
    exists|acts: Seq<Seq<T>>|
        #![trigger acts.len(), acts[0]]
        acts.len() == weights.len() + 1 && acts[0] == input && acts[weights.len() as int] == output
            && forall|k: int|
            0 <= k < weights.len() ==> #[trigger] layer_link(
                fma,
                add_bias,
                activate,
                bias,
                weights,
                acts,
                k,
            )
}

/// The scalar arithmetic gives one result for each set of arguments: the
/// multiply-add, the bias step, the activation and `T::default()`.
pub open spec fn arithmetic_is_deterministic<T: Default, FM, FB, FA>(
    fma: FM,
    add_bias: FB,
    activate: FA,
) -> bool where FM: Fn(T, T, T) -> T, FB: Fn(T, u8) -> T, FA: Fn(T) -> T {
    &&& is_function3(fma)
    &&& forall|v: T, b: u8, r1: T, r2: T|
        #![trigger call_ensures(add_bias, (v, b), r1), call_ensures(add_bias, (v, b), r2)]
        call_ensures(add_bias, (v, b), r1) && call_ensures(add_bias, (v, b), r2) ==> r1 == r2
    &&& forall|v: T, r1: T, r2: T|
        #![trigger call_ensures(activate, (v,), r1), call_ensures(activate, (v,), r2)]
        call_ensures(activate, (v,), r1) && call_ensures(activate, (v,), r2) ==> r1 == r2
    &&& forall|z1: T, z2: T|
        #![trigger call_ensures(T::default, (), z1), call_ensures(T::default, (), z2)]
        call_ensures(T::default, (), z1) && call_ensures(T::default, (), z2) ==> z1 == z2
}

/// With deterministic arithmetic, one layer makes one output of an input.
proof fn lemma_layer_unique<T: Default, FM, FB, FA>(
    fma: FM,
    add_bias: FB,
    activate: FA,
    bias: u8,
    w: Matrix<T>,
    x: Seq<T>,
    y1: Seq<T>,
    y2: Seq<T>,
) where FM: Fn(T, T, T) -> T, FB: Fn(T, u8) -> T, FA: Fn(T) -> T
    requires
        arithmetic_is_deterministic(fma, add_bias, activate),
        layer_step(fma, add_bias, activate, bias, w, x, y1),
        layer_step(fma, add_bias, activate, bias, w, x, y2),
    ensures
        y1 == y2,
{
    let z1 = choose|z: T|
        call_ensures(T::default, (), z) && forall|i: int|
            0 <= i < y1.len() ==> #[trigger] neuron(fma, add_bias, activate, bias, z, w.row(i), x, y1[i]);
    let z2 = choose|z: T|
        call_ensures(T::default, (), z) && forall|i: int|
            0 <= i < y2.len() ==> #[trigger] neuron(fma, add_bias, activate, bias, z, w.row(i), x, y2[i]);
    assert(z1 == z2);
    assert forall|i: int| 0 <= i < y1.len() implies y1[i] == y2[i] by {
        let ws = w.row(i);
        assert(neuron(fma, add_bias, activate, bias, z1, ws, x, y1[i]));
        assert(neuron(fma, add_bias, activate, bias, z1, ws, x, y2[i]));
        let (sum1, biased1) = choose|sum: T, biased: T|
            #![trigger call_ensures(add_bias, (sum, bias), biased)]
            accumulates(fma, z1, ws, x, ws.len(), sum) && call_ensures(add_bias, (sum, bias), biased)
                && call_ensures(activate, (biased,), y1[i]);
        let (sum2, biased2) = choose|sum: T, biased: T|
            #![trigger call_ensures(add_bias, (sum, bias), biased)]
            accumulates(fma, z1, ws, x, ws.len(), sum) && call_ensures(add_bias, (sum, bias), biased)
                && call_ensures(activate, (biased,), y2[i]);
        lemma_accumulates_unique(fma, z1, ws, x, ws.len(), sum1, sum2);
    }
    assert(y1 =~= y2);
}

/// Two traces of activations through the same layers from the same input
/// agree up to layer `m`.
proof fn lemma_activations_agree<T: Default, FM, FB, FA>(
    fma: FM,
    add_bias: FB,
    activate: FA,
    bias: u8,
    weights: Seq<Matrix<T>>,
    acts1: Seq<Seq<T>>,
    acts2: Seq<Seq<T>>,
    m: nat,
) where FM: Fn(T, T, T) -> T, FB: Fn(T, u8) -> T, FA: Fn(T) -> T
    requires
        arithmetic_is_deterministic(fma, add_bias, activate),
        m <= weights.len(),
        acts1.len() == weights.len() + 1,
        acts2.len() == weights.len() + 1,
        acts1[0] == acts2[0],
        forall|k: int|
            0 <= k < weights.len() ==> #[trigger] layer_link(
                fma,
                add_bias,
                activate,
                bias,
                weights,
                acts1,
                k,
            ),
        forall|k: int|
            0 <= k < weights.len() ==> #[trigger] layer_link(
                fma,
                add_bias,
                activate,
                bias,
                weights,
                acts2,
                k,
            ),
    ensures
        acts1[m as int] == acts2[m as int],
    decreases m,
{
    if m > 0 {
        let k = m - 1;
        lemma_activations_agree(fma, add_bias, activate, bias, weights, acts1, acts2, k as nat);
        assert(layer_link(fma, add_bias, activate, bias, weights, acts1, k));
        assert(layer_link(fma, add_bias, activate, bias, weights, acts2, k));
        lemma_layer_unique(
            fma,
            add_bias,
            activate,
            bias,
            weights[k],
            acts1[k],
            acts1[k + 1],
            acts2[k + 1],
        );
    }
}

/// With deterministic arithmetic the output of a network is a function of
/// its input: two runs on the same input give the same output.
pub proof fn lemma_propagates_deterministic<T: Default, FM, FB, FA>(
    fma: FM,
    add_bias: FB,
    activate: FA,
    bias: u8,
    weights: Seq<Matrix<T>>,
    input: Seq<T>,
    out1: Seq<T>,
    out2: Seq<T>,
) where FM: Fn(T, T, T) -> T, FB: Fn(T, u8) -> T, FA: Fn(T) -> T
    requires
        arithmetic_is_deterministic(fma, add_bias, activate),
        propagates(fma, add_bias, activate, bias, weights, input, out1),
        propagates(fma, add_bias, activate, bias, weights, input, out2),
    ensures
        out1 == out2,
{
    let acts1 = choose|acts: Seq<Seq<T>>|
        #![trigger acts.len(), acts[0]]
        acts.len() == weights.len() + 1 && acts[0] == input && acts[weights.len() as int] == out1
            && forall|k: int|
            0 <= k < weights.len() ==> #[trigger] layer_link(
                fma,
                add_bias,
                activate,
                bias,
                weights,
                acts,
                k,
            );
    let acts2 = choose|acts: Seq<Seq<T>>|
        #![trigger acts.len(), acts[0]]
        acts.len() == weights.len() + 1 && acts[0] == input && acts[weights.len() as int] == out2
            && forall|k: int|
            0 <= k < weights.len() ==> #[trigger] layer_link(
                fma,
                add_bias,
                activate,
                bias,
                weights,
                acts,
                k,
            );
    lemma_activations_agree(fma, add_bias, activate, bias, weights, acts1, acts2, weights.len());
}

/// A network whose weight matrices have the shapes that `NeuralNet::new`
/// gives for `(input, hidden, output)` takes `input` values and, whatever the
/// hidden layers, gives `output` values.
pub proof fn lemma_built_sizes<T>(nn: NeuralNet<T>, input: u32, hidden: Seq<u32>, output: u32)
    requires
        nn.weights().len() == hidden.len() + 1,
        forall|k: int|
            0 <= k < nn.weights().len() ==> {
                let sizes = layer_sizes(input, hidden, output);
                &&& (#[trigger] nn.weights()[k]).nrows() == sizes[k + 1]
                &&& nn.weights()[k].ncols() == sizes[k]
            },
    ensures
        nn.input_size() == input,
        nn.output_size() == output,
{
    let sizes = layer_sizes(input, hidden, output);
    let last = hidden.len() as int;
    assert(nn.weights()[0].ncols() == sizes[0]);
    assert(nn.weights()[last].nrows() == sizes[last + 1]);
}

/// A feed-forward network: one weight matrix per transition between
/// neighbouring layers, the one into layer `k + 1` of shape
/// `size(k + 1) x size(k)`.
pub struct NeuralNet<T> {
    hidden_nodes: Vec<u32>,
    hidden_weights: Vec<Matrix<T>>,
    /// The learning rate as a fraction, numerator then denominator.
    learning_rate: (u32, u32),
    bias: u8,
}

impl<T> NeuralNet<T> {
    /// The node counts of the hidden layers.
    pub closed spec fn hidden_sizes(&self) -> Seq<u32> {
        self.hidden_nodes@
    }

    /// The weight matrices, from the input side to the output side.
    pub closed spec fn weights(&self) -> Seq<Matrix<T>> {
        self.hidden_weights@
    }

    /// The constant added to every neuron's weighted sum.
    pub closed spec fn bias_spec(&self) -> u8 {
        self.bias
    }

    /// The learning rate, numerator then denominator.
    pub closed spec fn learning_rate_spec(&self) -> (u32, u32) {
        self.learning_rate
    }

    /// The node count of the input layer.
    pub open spec fn input_size(&self) -> nat {
        self.weights()[0].ncols()
    }

    /// The node count of the output layer.
    pub open spec fn output_size(&self) -> nat {
        self.weights().last().nrows()
    }

    /// One weight matrix per transition, each well formed, the columns of
    /// each matching the rows of the one before, and the rows of all but the
    /// last matching the hidden sizes.
    pub open spec fn wf(&self) -> bool {
        &&& self.weights().len() == self.hidden_sizes().len() + 1
        &&& forall|k: int| 0 <= k < self.weights().len() ==> (#[trigger] self.weights()[k]).wf()
        &&& forall|k: int|
            0 < k < self.weights().len() ==> (#[trigger] self.weights()[k]).ncols()
                == self.weights()[k - 1].nrows()
        &&& forall|k: int|
            0 <= k < self.hidden_sizes().len() ==> (#[trigger] self.weights()[k]).nrows()
                == self.hidden_sizes()[k]
    }
}

impl<T: Copy + Default> NeuralNet<T> {
    /// A network with `input_nodes` inputs, one hidden layer for each entry
    /// of `hidden_nodes` (none makes a perceptron) and `output_nodes`
    /// outputs. All weights start at `T`'s default value, the bias at 1 and
    /// the learning rate at 1/10. Fails with `InvalidDimensions` when some
    /// layer, input, hidden or output, has no nodes.
    pub fn new(input_nodes: u32, hidden_nodes: Vec<u32>, output_nodes: u32) -> (r: Result<
        Self,
        MatrixError,
    >)
        requires
            sizes_fit(layer_sizes(input_nodes, hidden_nodes@, output_nodes)),
        ensures
            match r {
                Ok(nn) => {
                    &&& all_positive(layer_sizes(input_nodes, hidden_nodes@, output_nodes))
                    &&& nn.wf()
                    &&& nn.hidden_sizes() == hidden_nodes@
                    &&& nn.weights().len() == hidden_nodes@.len() + 1
                    &&& forall|k: int|
                        0 <= k < nn.weights().len() ==> {
                            let sizes = layer_sizes(input_nodes, hidden_nodes@, output_nodes);
                            &&& (#[trigger] nn.weights()[k]).nrows() == sizes[k + 1]
                            &&& nn.weights()[k].ncols() == sizes[k]
                            &&& nn.weights()[k].is_default_filled()
                        }
                    &&& nn.bias_spec() == 1
                    &&& nn.learning_rate_spec() == (1u32, 10u32)
                },
                Err(e) => !all_positive(layer_sizes(input_nodes, hidden_nodes@, output_nodes)) && e
                    == MatrixError::InvalidDimensions,
            },
    {
        let ghost sizes = layer_sizes(input_nodes, hidden_nodes@, output_nodes);
        let hn_len = hidden_nodes.len();
        if input_nodes == 0 {
            assert(sizes[0] == 0);
            return Err(MatrixError::InvalidDimensions);
        }
        if output_nodes == 0 {
            assert(sizes[hn_len + 1] == 0);
            return Err(MatrixError::InvalidDimensions);
        }
        let mut z: usize = 0;
        while z < hn_len
            invariant
                hn_len == hidden_nodes@.len(),
                sizes == layer_sizes(input_nodes, hidden_nodes@, output_nodes),
                z <= hn_len,
                forall|k: int| 0 <= k < z ==> #[trigger] hidden_nodes@[k] > 0,
            decreases hn_len - z,
        {
            if hidden_nodes[z] == 0 {
                assert(sizes[z + 1] == hidden_nodes@[z as int]);
                return Err(MatrixError::InvalidDimensions);
            }
            z += 1;
        }
        assert(all_positive(sizes)) by {
            assert forall|k: int| 0 <= k < sizes.len() implies #[trigger] sizes[k] > 0 by {
                if 0 < k <= hn_len {
                    assert(sizes[k] == hidden_nodes@[k - 1]);
                }
            }
        }
        let mut hidden_weights: Vec<Matrix<T>> = Vec::new();
        if hn_len > 0 {
            assert(sizes[0] * sizes[1] <= usize::MAX);
            assert(sizes[1] == hidden_nodes@[0] && sizes[0] == input_nodes);
            assert(hidden_nodes@[0] * input_nodes <= usize::MAX) by (nonlinear_arith)
                requires
                    input_nodes * hidden_nodes@[0] <= usize::MAX;
            hidden_weights.push(Matrix::new(hidden_nodes[0], input_nodes));
            let mut i: usize = 1;
            while i < hn_len
                invariant
                    hn_len == hidden_nodes@.len(),
                    sizes == layer_sizes(input_nodes, hidden_nodes@, output_nodes),
                    sizes_fit(sizes),
                    1 <= i <= hn_len,
                    hidden_weights@.len() == i,
                    forall|k: int|
                        0 <= k < i ==> {
                            &&& (#[trigger] hidden_weights@[k]).wf()
                            &&& hidden_weights@[k].nrows() == sizes[k + 1]
                            &&& hidden_weights@[k].ncols() == sizes[k]
                            &&& hidden_weights@[k].is_default_filled()
                        },
                decreases hn_len - i,
            {
                assert(sizes[i as int] * sizes[i + 1] <= usize::MAX);
                assert(sizes[i + 1] == hidden_nodes@[i as int] && sizes[i as int] == hidden_nodes@[i - 1]);
                assert(hidden_nodes@[i as int] * hidden_nodes@[i - 1] <= usize::MAX) by (nonlinear_arith)
                    requires
                        hidden_nodes@[i - 1] * hidden_nodes@[i as int] <= usize::MAX;
                hidden_weights.push(Matrix::new(hidden_nodes[i], hidden_nodes[i - 1]));
                i += 1;
            }
            assert(sizes[hn_len as int] * sizes[hn_len + 1] <= usize::MAX);
            assert(sizes[hn_len + 1] == output_nodes && sizes[hn_len as int] == hidden_nodes@[hn_len - 1]);
            assert(output_nodes * hidden_nodes@[hn_len - 1] <= usize::MAX) by (nonlinear_arith)
                requires
                    hidden_nodes@[hn_len - 1] * output_nodes <= usize::MAX;
            hidden_weights.push(Matrix::new(output_nodes, hidden_nodes[hn_len - 1]));
        } else {
            assert(sizes[0] * sizes[1] <= usize::MAX);
            assert(sizes[1] == output_nodes && sizes[0] == input_nodes);
            assert(output_nodes * input_nodes <= usize::MAX) by (nonlinear_arith)
                requires
                    input_nodes * output_nodes <= usize::MAX;
            hidden_weights.push(Matrix::new(output_nodes, input_nodes));
        }
        Ok(NeuralNet { learning_rate: (1, 10), bias: 1, hidden_nodes, hidden_weights })
    }

    /// Runs `input_data` through the network, layer by layer: multiply by the
    /// weight matrix (`fma(acc, w, x)` is the multiply-add), add the bias to
    /// every node (`add_bias`), apply `activate` to every node. Returns the
    /// output layer, or `DimensionMismatch` when the input does not have one
    /// value per input node.
    pub fn feed_forward<FM, FB, FA>(
        &self,
        input_data: Vec<T>,
        fma: FM,
        add_bias: FB,
        activate: FA,
    ) -> (r: Result<Vec<T>, MatrixError>)
        where FM: Fn(T, T, T) -> T + Copy, FB: Fn(T, u8) -> T + Copy, FA: Fn(T) -> T + Copy,
        requires
            self.wf(),
            forall|acc: T, x: T, y: T| #[trigger] fma.requires((acc, x, y)),
            forall|v: T, b: u8| #[trigger] add_bias.requires((v, b)),
            forall|v: T| #[trigger] activate.requires((v,)),
        ensures
            match r {
                Ok(out) => {
                    &&& input_data@.len() == self.input_size()
                    &&& out@.len() == self.output_size()
                    &&& propagates(
                        fma,
                        add_bias,
                        activate,
                        self.bias_spec(),
                        self.weights(),
                        input_data@,
                        out@,
                    )
                },
                Err(e) => input_data@.len() != self.input_size() && e
                    == MatrixError::DimensionMismatch,
            },
    {
        let ghost input = input_data@;
        let n = input_data.len();
        if n != self.hidden_weights[0].cols() as usize {
            return Err(MatrixError::DimensionMismatch);
        }
        let mut hidden = match Matrix::from(n as u32, 1, input_data) {
            Ok(m) => m,
            Err(e) => return Err(e),
        };
        assert(hidden@ =~= hidden.column(0));
        let bias = self.bias;
        let ghost mut acts: Seq<Seq<T>> = seq![input];
        let mut idx: usize = 0;
        while idx < self.hidden_weights.len()
            invariant
                self.wf(),
                bias == self.bias_spec(),
                forall|acc: T, x: T, y: T| #[trigger] fma.requires((acc, x, y)),
                forall|v: T, b: u8| #[trigger] add_bias.requires((v, b)),
                forall|v: T| #[trigger] activate.requires((v,)),
                idx <= self.weights().len(),
                hidden.wf(),
                hidden.ncols() == 1,
                idx == 0 ==> hidden.nrows() == self.input_size(),
                idx > 0 ==> hidden.nrows() == self.weights()[idx - 1].nrows(),
                acts.len() == idx + 1,
                acts[0] == input,
                acts[idx as int] == hidden@,
                forall|k: int|
                    0 <= k < idx ==> #[trigger] layer_link(
                        fma,
                        add_bias,
                        activate,
                        bias,
                        self.weights(),
                        acts,
                        k,
                    ),
            decreases self.weights().len() - idx,
        {
            let w = &self.hidden_weights[idx];
            let mut out = match Matrix::mult(w, &hidden, fma) {
                Ok(m) => m,
                Err(e) => return Err(e),
            };
            let ghost product = out;
            let biasing = |v: T, _row: u32, _col: u32| -> (s: T)
                ensures
                    call_ensures(add_bias, (v, bias), s),
                {
                    add_bias(v, bias)
                };
            out.map(biasing);
            let ghost biased = out;
            let activation = |v: T, _row: u32, _col: u32| -> (s: T)
                ensures
                    call_ensures(activate, (v,), s),
                {
                    activate(v)
                };
            out.map(activation);
            proof {
                let x = hidden@;
                let y = out@;
                assert(hidden.column(0) =~= x);
                let z = choose|z: T|
                    call_ensures(T::default, (), z) && forall|i: int, j: int|
                        0 <= i < product.nrows() && 0 <= j < product.ncols() ==> accumulates(
                            fma,
                            z,
                            w.row(i),
                            hidden.column(j),
                            w.ncols(),
                            #[trigger] product.at(i, j),
                        );
                assert forall|i: int| 0 <= i < y.len() implies #[trigger] neuron(
                    fma,
                    add_bias,
                    activate,
                    bias,
                    z,
                    w.row(i),
                    x,
                    y[i],
                ) by {
                    assert(product.at(i, 0) == product@[i]);
                    assert(biased.at(i, 0) == biased@[i]);
                    assert(out.at(i, 0) == out@[i]);
                    assert(accumulates(fma, z, w.row(i), hidden.column(0), w.ncols(), product.at(i, 0)));
                    assert(call_ensures(add_bias, (product@[i], bias), biased@[i]));
                }
                let prev = acts;
                acts = acts.push(y);
                assert forall|k: int| 0 <= k <= idx implies #[trigger] layer_link(
                    fma,
                    add_bias,
                    activate,
                    bias,
                    self.weights(),
                    acts,
                    k,
                ) by {
                    if k < idx {
                        assert(layer_link(fma, add_bias, activate, bias, self.weights(), prev, k));
                    }
                }
            }
            hidden = out;
            assert(hidden@ =~= hidden.column(0));
            idx += 1;
        }
        Ok(hidden.data())
    }

    /// The weight matrices, from the input side to the output side.
    pub fn hidden_weights(&self) -> (r: &Vec<Matrix<T>>)
        ensures
            r@ == self.weights(),
    {
        &self.hidden_weights
    }

    /// The node counts of the hidden layers.
    pub fn hidden_nodes(&self) -> (r: &Vec<u32>)
        ensures
            r@ == self.hidden_sizes(),
    {
        &self.hidden_nodes
    }

    /// The constant added to every neuron's weighted sum.
    pub fn bias(&self) -> (r: u8)
        ensures
            r == self.bias_spec(),
    {
        self.bias
    }

    /// The learning rate as a fraction, numerator then denominator.
    pub fn learning_rate(&self) -> (r: (u32, u32))
        ensures
            r == self.learning_rate_spec(),
    {
        self.learning_rate
    }
}

} // verus!
