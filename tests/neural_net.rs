use neural_net_rs::{MatrixError, NeuralNet};

fn fma(acc: f64, x: f64, y: f64) -> f64 {
    acc + x * y
}

fn add_bias(v: f64, b: u8) -> f64 {
    v + b as f64
}

fn sigmoid(x: f64) -> f64 {
    1. / (1. + (-x).exp())
}

#[test]
fn nn_new() {
    let nn = NeuralNet::<f64>::new(2, vec![3, 4, 5], 2).unwrap();
    assert_eq!(nn.hidden_weights().len(), 4);
}

#[test]
fn new_perceptron() {
    let nn = NeuralNet::<f64>::new(2, Vec::new(), 1).unwrap();
    assert_eq!(nn.hidden_weights().len(), 1);
}

#[test]
fn feed_forward() {
    let nn = NeuralNet::new(2, vec![3, 4], 2).unwrap();
    let result = nn.feed_forward(vec![1., 1.], fma, add_bias, sigmoid).unwrap();
    assert_eq!(result.len(), 2);
}

#[test]
fn topology_shapes() {
    let nn = NeuralNet::<f64>::new(2, vec![3, 4, 5], 2).unwrap();
    let shapes: Vec<(u32, u32)> = nn.hidden_weights().iter().map(|w| (w.rows(), w.cols())).collect();
    assert_eq!(shapes, vec![(3, 2), (4, 3), (5, 4), (2, 5)]);
    for w in nn.hidden_weights() {
        assert!(w.data().iter().all(|v| *v == 0.));
    }
    assert_eq!(nn.hidden_nodes(), &vec![3, 4, 5]);
    assert_eq!(nn.bias(), 1);
    assert_eq!(nn.learning_rate(), (1, 10));
}

#[test]
fn perceptron_shape() {
    let nn = NeuralNet::<f64>::new(2, Vec::new(), 1).unwrap();
    let w = &nn.hidden_weights()[0];
    assert_eq!((w.rows(), w.cols()), (1, 2));
}

#[test]
fn feed_forward_output_length() {
    for hidden in [vec![], vec![7], vec![3, 4, 5], vec![1, 1, 1, 1]] {
        let nn = NeuralNet::new(3, hidden, 4).unwrap();
        let out = nn.feed_forward(vec![0.5, -1., 2.], fma, add_bias, sigmoid).unwrap();
        assert_eq!(out.len(), 4);
    }
}

#[test]
fn feed_forward_zero_weights_give_sigmoid_of_bias() {
    let nn = NeuralNet::new(2, vec![3], 2).unwrap();
    let out = nn.feed_forward(vec![5., -3.], fma, add_bias, sigmoid).unwrap();
    let expected = sigmoid(1.);
    assert_eq!(out, vec![expected, expected]);
}

#[test]
fn feed_forward_is_repeatable() {
    let nn = NeuralNet::new(2, vec![3, 4], 2).unwrap();
    let first = nn.feed_forward(vec![0.25, 0.75], fma, add_bias, sigmoid).unwrap();
    let second = nn.feed_forward(vec![0.25, 0.75], fma, add_bias, sigmoid).unwrap();
    assert_eq!(first, second);
}

#[test]
fn feed_forward_rejects_wrong_input_length() {
    let nn = NeuralNet::new(2, vec![3], 1).unwrap();
    let r = nn.feed_forward(vec![1., 2., 3.], fma, add_bias, sigmoid);
    assert!(matches!(r, Err(MatrixError::DimensionMismatch)));
    let r = nn.feed_forward(Vec::new(), fma, add_bias, sigmoid);
    assert!(matches!(r, Err(MatrixError::DimensionMismatch)));
}

#[test]
fn feed_forward_integer_layers() {
    // With integer arithmetic and an identity activation the output is exact:
    // zero weights leave only the bias.
    let nn = NeuralNet::<i64>::new(3, vec![2], 2).unwrap();
    let out = nn
        .feed_forward(vec![4, 5, 6], |acc: i64, x: i64, y: i64| acc + x * y, |v: i64, b: u8| v + b as i64, |v: i64| v * 2)
        .unwrap();
    assert_eq!(out, vec![2, 2]);
}

#[test]
fn new_rejects_empty_layers() {
    let r = NeuralNet::<f64>::new(0, vec![3], 2);
    assert!(matches!(r, Err(MatrixError::InvalidDimensions)));
    let r = NeuralNet::<f64>::new(2, vec![3], 0);
    assert!(matches!(r, Err(MatrixError::InvalidDimensions)));
    let r = NeuralNet::<f64>::new(2, vec![3, 0, 4], 2);
    assert!(matches!(r, Err(MatrixError::InvalidDimensions)));
    let r = NeuralNet::<f64>::new(0, Vec::new(), 1);
    assert!(matches!(r, Err(MatrixError::InvalidDimensions)));
    assert!(NeuralNet::<f64>::new(1, vec![1], 1).is_ok());
}
