use rustnn::activation::Activation;
use rustnn::dataloader::DataLoader;
use rustnn::linalg::Matrix;
use rustnn::loss::LossFunction;
use rustnn::codec::LoadError;
use rustnn::nn::{Layer, Network};

// One unit is 1_000_000 raw: values carry six decimal places.
const ONE: i64 = 1_000_000;

fn square_layer() -> Layer {
    Layer {
        input_size: 2,
        output_size: 2,
        weights: Matrix {
            nrows: 2,
            ncols: 2,
            data: vec![vec![1 * ONE, 2 * ONE], vec![3 * ONE, 4 * ONE]],
        },
        biases: vec![0, 0],
        activation: Activation::Identity,
        activationdata: vec![0, 0],
        activationgrad: vec![0, 0],
    }
}

#[test]
fn test_layer_forward() {
    let mut layer = square_layer();
    let inputs = vec![1 * ONE, 2 * ONE];
    let outputs = vec![5 * ONE, 11 * ONE];
    let layer_outputs = layer.forward(&inputs);
    assert_eq!(layer_outputs.clone(), outputs.clone());
    let layer2 = layer.forward(&layer_outputs);
    assert_eq!(layer2, vec![27 * ONE, 59 * ONE]);
}

#[test]
fn network_forward_twice() {
    let layer = square_layer();
    let inputs = vec![1 * ONE, 2 * ONE];
    let mut network = Network {
        layers: vec![layer.clone(), layer.clone()],
        loss: LossFunction::MSE,
    };
    assert_eq!(network.forward(&inputs), vec![27 * ONE, 59 * ONE]);
}

#[test]
fn layer_forward_new() {
    let mut layer = Layer::new(2, 2, Activation::Identity);
    layer.weights = Matrix {
        nrows: 2,
        ncols: 2,
        data: vec![vec![1 * ONE, 2 * ONE], vec![3 * ONE, 4 * ONE]],
    };
    // add 1 layer to the network
    let mut network = Network::new();
    network.add_layer(layer.clone());
    let inputs = vec![1 * ONE, 2 * ONE];
    let outputs = layer.forward(&inputs);
    assert_eq!(outputs.len(), 2);
}

#[test]
fn class_network_test() {
    let mut network = Network::new();
    network.loss = LossFunction::CrossEntropy;

    network.add_layers(vec![
        Layer::new(2, 4, Activation::Relu),
        Layer::new(4, 2, Activation::Relu),
        Layer::new(2, 1, Activation::Sigmoid),
    ]);

    let dataloader = DataLoader::new(
        vec![
            vec![1 * ONE, 1 * ONE],
            vec![0, 0],
            vec![0, 1 * ONE],
            vec![1 * ONE, 0],
        ],
        vec![vec![1 * ONE], vec![1 * ONE], vec![0], vec![0]],
        1,
        false,
    );

    let initial_loss = network.loss.getloss(
        &network.layers[network.layers.len() - 1].activationdata,
        &dataloader.labels[0],
    );

    network.train(&dataloader, 6_000, 100);

    let final_loss = network.loss.getloss(
        &network.layers[network.layers.len() - 1].activationdata,
        &dataloader.labels[0],
    );

    println!("initial loss: {:?}, final loss: {:?}", initial_loss, final_loss);
    assert!(initial_loss > final_loss);
}

#[test]
fn identity_layer_is_affine() {
    // with the identity activation, forward(x) == weights * x + biases
    let mut layer = square_layer();
    layer.biases = vec![7 * ONE, -2 * ONE];
    let x = vec![3 * ONE, -1 * ONE];
    let wx = rustnn::linalg::multiply(&layer.weights, &x).unwrap();
    let expected = rustnn::linalg::add(&wx, &layer.biases).unwrap();
    assert_eq!(layer.forward(&x), expected);
}

#[test]
fn shape_mismatch_errors() {
    let m = Matrix {
        nrows: 2,
        ncols: 3,
        data: vec![vec![1, 2, 3], vec![4, 5, 6]],
    };
    let v2 = vec![1 * ONE, 2 * ONE];
    let v3 = vec![1 * ONE, 2 * ONE, 3 * ONE];
    let e = rustnn::linalg::multiply(&m, &v2).unwrap_err();
    assert_eq!(e.expected, 3);
    assert_eq!(e.found, 2);
    assert!(rustnn::linalg::multiply(&m, &v3).is_ok());
    assert!(rustnn::linalg::add(&v2, &v3).is_err());
    assert!(rustnn::linalg::subtract(&v3, &v2).is_err());
    assert!(rustnn::linalg::dot_product(&v2, &v3).is_err());
    assert!(rustnn::linalg::dot_product(&v2, &v2).is_ok());
}

#[test]
fn dot_product_value() {
    let a = vec![1 * ONE, 2 * ONE];
    let b = vec![3 * ONE, 4 * ONE];
    assert_eq!(rustnn::linalg::dot_product(&a, &b).unwrap(), 11 * ONE);
}

#[test]
fn transpose_involution() {
    let m = Matrix {
        nrows: 2,
        ncols: 3,
        data: vec![vec![1, 2, 3], vec![4, 5, 6]],
    };
    let t = Matrix::transpose(&m);
    assert_eq!(t.nrows, 3);
    assert_eq!(t.ncols, 2);
    assert_eq!(t.data, vec![vec![1, 4], vec![2, 5], vec![3, 6]]);
    assert_eq!(Matrix::transpose(&t), m);
}

#[test]
fn classify_thresholds_at_one_half() {
    let network = Network::new();
    let out = network.classify(&vec![1 * ONE, 500_000, 499_999, -3, 0]);
    assert_eq!(out, vec![ONE, ONE, 0, 0, 0]);
}

#[test]
fn sigmoid_of_zero_is_one_half() {
    let act = Activation::Sigmoid;
    let y = act.forward(&vec![0]);
    assert_eq!(y, vec![500_000]);
}

#[test]
fn relu_forward_and_backward() {
    let act = Activation::Relu;
    let y = act.forward(&vec![-3 * ONE, 0, 2 * ONE]);
    assert_eq!(y, vec![0, 0, 2 * ONE]);
    let d = act.backward(&y, &LossFunction::MSE);
    assert_eq!(d, vec![0, 0, ONE]);
}

#[test]
fn softmax_of_equal_inputs_is_uniform() {
    let act = Activation::Softmax;
    let y = act.forward(&vec![0, 0]);
    assert_eq!(y, vec![500_000, 500_000]);
}

#[test]
fn mse_loss_value() {
    let loss = LossFunction::MSE;
    // mean of (2 - 0)^2 over one entry: 4.0
    assert_eq!(loss.getloss(&vec![2 * ONE], &vec![0]), 4 * ONE);
    // gradient: 2 (o - t) / n
    assert_eq!(loss.backward(&vec![2 * ONE], &vec![0]), vec![4 * ONE]);
}

#[test]
fn cross_entropy_of_certain_answer_is_zero() {
    let loss = LossFunction::CrossEntropy;
    assert_eq!(loss.getloss(&vec![1 * ONE], &vec![1 * ONE]), 0);
    // the combined softmax gradient is o - t
    assert_eq!(
        loss.backward(&vec![700_000, 300_000], &vec![ONE, 0]),
        vec![-300_000, 300_000]
    );
}

#[test]
fn cross_entropy_guards_log_of_zero() {
    let loss = LossFunction::CrossEntropy;
    // a zero output is clamped to 0.000001, so the loss is -ln(1e-6) ~ 13.8
    let l = loss.getloss(&vec![0], &vec![1 * ONE]);
    assert!(l > 13 * ONE && l < 15 * ONE);
}

#[test]
fn single_step_gradient_descent_values() {
    // one 1x1 identity layer, weight 1, bias 0, learning rate 1,
    // target 0 with mean squared error: the loss gradient is 2, the
    // weight becomes 1 - 2 = -1 and the bias 0 - 2 = -2.
    let mut network = Network::new();
    network.add_layer(Layer {
        input_size: 1,
        output_size: 1,
        weights: Matrix { nrows: 1, ncols: 1, data: vec![vec![1 * ONE]] },
        biases: vec![0],
        activation: Activation::Identity,
        activationdata: vec![0],
        activationgrad: vec![0],
    });
    let x = vec![1 * ONE];
    let out = network.forward(&x);
    assert_eq!(out, vec![1 * ONE]);
    network.backward(&x, &vec![0], 1 * ONE);
    assert_eq!(network.layers[0].weights.data, vec![vec![-1 * ONE]]);
    assert_eq!(network.layers[0].biases, vec![-2 * ONE]);
    assert_eq!(network.layers[0].activationgrad, vec![2 * ONE]);
}

#[test]
fn training_decreases_loss_on_xor_like_data() {
    let mut network = Network::new();
    network.loss = LossFunction::CrossEntropy;
    network.add_layers(vec![
        Layer::new(2, 3, Activation::Relu),
        Layer::new(3, 2, Activation::Softmax),
    ]);
    let data = vec![
        vec![1 * ONE, 1 * ONE],
        vec![0, 0],
        vec![0, 1 * ONE],
        vec![1 * ONE, 0],
    ];
    let labels = rustnn::dataloader::to_onehot(&vec![1, 1, 0, 0], 2);
    let dataloader = DataLoader::new(data, labels, 2, false);
    let losses = network.train(&dataloader, 6_000, 200);
    assert_eq!(losses.len(), 200);
    println!("first epoch loss: {:?}, last epoch loss: {:?}", losses[0], losses[199]);
    assert!(losses[199] < losses[0]);
}

#[test]
fn to_onehot_expands_class_indices() {
    let oh = rustnn::dataloader::to_onehot(&vec![1, 0], 2);
    assert_eq!(oh, vec![vec![0, ONE], vec![ONE, 0]]);
}

#[test]
fn save_then_load_restores_weights() {
    let mut network = Network::new();
    network.add_layers(vec![
        Layer::new(2, 3, Activation::Relu),
        Layer::new(3, 2, Activation::Sigmoid),
    ]);
    // make a weight negative so the sign round-trips too
    network.layers[0].weights.data[0][0] = -123_456;
    let text = network.save_weights();

    let mut other = Network::new();
    other.add_layers(vec![
        Layer::new(2, 3, Activation::Relu),
        Layer::new(3, 2, Activation::Sigmoid),
    ]);
    // different weights before loading
    other.layers[0].weights.data[1][1] = 42;
    other.load_weights(&text).unwrap();
    assert_eq!(other.layers[0].weights, network.layers[0].weights);
    assert_eq!(other.layers[1].weights, network.layers[1].weights);
    // biases are not persisted and stay as constructed
    assert_eq!(other.layers[0].biases, vec![0, 0, 0]);
}

#[test]
fn load_rejects_malformed_input() {
    let mut network = Network::new();
    network.add_layer(Layer::new(2, 2, Activation::Identity));

    let mut empty = Network::new();
    empty.add_layer(Layer::new(2, 2, Activation::Identity));
    assert_eq!(empty.load_weights(&b"".to_vec()).unwrap_err(), LoadError::NotEnoughLines);
    assert_eq!(
        network.load_weights(&b"1,2,3,4\n".to_vec()).unwrap_err(),
        LoadError::UnterminatedLine(0)
    );
    assert_eq!(
        network.load_weights(&b"1,x,3,4,\n".to_vec()).unwrap_err(),
        LoadError::InvalidNumber(0)
    );
    assert_eq!(
        network.load_weights(&b"1,2,\n".to_vec()).unwrap_err(),
        LoadError::NotEnoughValues(0)
    );
    assert!(network.load_weights(&b"1,2,3,4,\n".to_vec()).is_ok());
    assert_eq!(network.layers[0].weights.data, vec![vec![1, 2], vec![3, 4]]);
}

#[test]
fn rand_is_deterministic_and_in_range() {
    let a = Matrix::rand(3, 4);
    let b = Matrix::rand(3, 4);
    assert_eq!(a, b);
    for row in &a.data {
        for &v in row {
            assert!(-ONE < v && v < ONE);
        }
    }
    // a different shape gives a different stream
    let c = Matrix::rand(4, 3);
    assert!(c.data[0][0] != a.data[0][0] || c.data[0][1] != a.data[0][1]);
}

#[test]
fn zero_epochs_change_nothing() {
    let mut network = Network::new();
    network.add_layers(vec![
        Layer::new(2, 3, Activation::Relu),
        Layer::new(3, 1, Activation::Sigmoid),
    ]);
    let before = network.clone();
    let dataloader = DataLoader::new(
        vec![vec![1 * ONE, 0]],
        vec![vec![1 * ONE]],
        1,
        false,
    );
    let losses = network.train(&dataloader, 6_000, 0);
    assert_eq!(losses.len(), 0);
    assert_eq!(network, before);
}
