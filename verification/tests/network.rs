use ann_lib::activation::{relu, sigmoid};
use ann_lib::node::{copy_layer, values_of};
use ann_lib::{Activation, Binary, Constant, LengthMismatch, Neurone, Node, Op, Unary, ANN};
use std::cell::{Cell, RefCell};

/// Double-precision arithmetic.
fn ieee(op: Op<f64>) -> f64 {
    match op {
        Op::Constant(Constant::Integer(n)) => f64::from(n),
        Op::Constant(Constant::Euler) => std::f64::consts::E,
        Op::Unary(Unary::Neg, x) => -x,
        Op::Unary(Unary::Square, x) => x.powi(2),
        Op::Binary(Binary::Add, a, b) => a + b,
        Op::Binary(Binary::Sub, a, b) => a - b,
        Op::Binary(Binary::Mul, a, b) => a * b,
        Op::Binary(Binary::Div, a, b) => a / b,
        Op::Binary(Binary::Max, a, b) => a.max(b),
        Op::Binary(Binary::Pow, a, b) => a.powf(b),
    }
}

/// A source that hands out `values` in order, and counts its draws.
struct Script {
    values: Vec<f64>,
    next: Cell<usize>,
}

impl Script {
    fn new(values: Vec<f64>) -> Script {
        Script { values, next: Cell::new(0) }
    }

    fn draw(&self) -> f64 {
        let i = self.next.get();
        self.next.set(i + 1);
        self.values[i]
    }

    fn drawn(&self) -> usize {
        self.next.get()
    }
}

fn close(a: f64, b: f64) -> bool {
    (a - b).abs() < 1e-12
}

#[test]
fn no_hidden_layer_sigmoid_of_zero() {
    let script = Script::new(vec![0.9, -0.9, 0.5, -0.5, 0.0]);
    let mut ann = ANN::new(2, vec![], 1, &|| script.draw(), &ieee);
    ann.set_ins(vec![1.0, 1.0]);
    ann.calculate(&ieee);
    assert_eq!(ann.get_out(), vec![0.5]);
}

#[test]
fn relu_clamps_negative_hidden_value() {
    let script = Script::new(vec![0.3, 1.0, 0.0, 2.0, 0.0]);
    let mut ann = ANN::new(1, vec![1], 1, &|| script.draw(), &ieee);
    ann.set_ins(vec![-3.0]);
    ann.calculate(&ieee);
    assert_eq!(ann.get_out(), vec![0.5]);
}

#[test]
fn wrong_input_length_is_rejected_and_changes_nothing() {
    let script = Script::new(vec![0.25, -0.75, 0.5, -0.5, 0.0]);
    let mut ann = ANN::new(2, vec![], 1, &|| script.draw(), &ieee);
    ann.calculate(&ieee);
    let before = ann.get_out();
    let r = ann.try_set_ins(vec![1.0, 2.0, 3.0]);
    assert_eq!(r, Err(LengthMismatch { offered: 3, expected: 2 }));
    assert_eq!(ann.input_size(), 2);
    ann.calculate(&ieee);
    assert_eq!(ann.get_out(), before);
    let r = ann.try_set_ins(vec![]);
    assert_eq!(r, Err(LengthMismatch { offered: 0, expected: 2 }));
    assert_eq!(ann.input_size(), 2);
}

#[test]
fn try_set_ins_accepts_matching_length() {
    let script = Script::new(vec![0.0, 0.0, 0.5, -0.5, 0.0]);
    let mut ann = ANN::new(2, vec![], 1, &|| script.draw(), &ieee);
    assert_eq!(ann.try_set_ins(vec![4.0, 2.0]), Ok(()));
    ann.calculate(&ieee);
    // raw = 0 + 0.5 * 4 - 0.5 * 2 = 1
    let out = ann.get_out();
    assert!(close(out[0], 1.0 / (1.0 + (-1.0f64).exp())));
}

#[test]
fn empty_expected_gives_zero_error() {
    let script = Script::new(vec![0.1, 0.2, 0.7, -0.3, 0.4]);
    let mut ann = ANN::new(2, vec![], 1, &|| script.draw(), &ieee);
    assert_eq!(ann.calculate_error(vec![], &ieee), 0.0);
    ann.set_ins(vec![5.0, -2.0]);
    ann.calculate(&ieee);
    assert_eq!(ann.calculate_error(vec![], &ieee), 0.0);
}

#[test]
fn output_count_is_the_output_size() {
    let draws = Cell::new(0.0f64);
    let source = || {
        draws.set(draws.get() + 0.001);
        draws.get()
    };
    let mut ann = ANN::new(3, vec![4, 2], 5, &source, &ieee);
    assert_eq!(ann.get_out().len(), 5);
    assert_eq!(ann.get_out_layer().len(), 5);
    ann.set_ins(vec![1.0, 2.0, 3.0]);
    assert_eq!(ann.get_out().len(), 5);
    ann.calculate(&ieee);
    assert_eq!(ann.get_out().len(), 5);
    assert_eq!(ann.input_size(), 3);
}

#[test]
fn fresh_units_hold_zero() {
    let script = Script::new(vec![0.5; 16]);
    let ann = ANN::new(2, vec![3], 1, &|| script.draw(), &ieee);
    assert_eq!(ann.get_out(), vec![0.0]);
}

#[test]
fn construction_draws_weights_then_bias_unit_by_unit() {
    // 2 inputs; 3 hidden units of 2 weights and a bias; 1 output unit of 3 weights and a bias
    let script = Script::new(vec![0.5; 15]);
    let _ann = ANN::new(2, vec![3], 1, &|| script.draw(), &ieee);
    assert_eq!(script.drawn(), 2 + 3 * (2 + 1) + (3 + 1));
}

#[test]
fn bias_is_the_draw_times_ten() {
    // no inputs, so the output is sigmoid(bias) with bias = 10 * 0.05 = 0.5
    let script = Script::new(vec![0.05]);
    let mut ann = ANN::new(0, vec![], 1, &|| script.draw(), &ieee);
    assert_eq!(ann.input_size(), 0);
    ann.set_ins(vec![]);
    ann.calculate(&ieee);
    let out = ann.get_out();
    assert_eq!(out.len(), 1);
    assert!(close(out[0], 1.0 / (1.0 + (-0.5f64).exp())));
}

#[test]
fn empty_layers_are_permitted() {
    let script = Script::new(vec![0.5, 0.5, 0.02]);
    let mut ann = ANN::new(2, vec![0], 1, &|| script.draw(), &ieee);
    assert_eq!(script.drawn(), 3);
    ann.set_ins(vec![1.0, 1.0]);
    ann.calculate(&ieee);
    // the output unit has no weights: sigmoid(10 * 0.02)
    assert!(close(ann.get_out()[0], 1.0 / (1.0 + (-0.2f64).exp())));
    let none = ANN::new(1, vec![], 0, &|| 0.5, &ieee);
    assert_eq!(none.get_out(), Vec::<f64>::new());
    assert_eq!(none.calculate_error(vec![], &ieee), 0.0);
}

#[test]
fn forward_twice_gives_identical_outputs() {
    let seed = Cell::new(0.37f64);
    let source = || {
        let x = (seed.get() * 3.9 * (1.0 - seed.get())).fract();
        seed.set(x);
        x * 2.0 - 1.0
    };
    let mut ann = ANN::new(2, vec![10, 5], 2, &source, &ieee);
    ann.set_ins(vec![1.0, 0.0]);
    ann.calculate(&ieee);
    let first = ann.get_out();
    ann.calculate(&ieee);
    let second = ann.get_out();
    assert_eq!(first, second);
    ann.set_ins(vec![1.0, 0.0]);
    ann.calculate(&ieee);
    assert_eq!(ann.get_out(), first);
}

#[test]
fn forward_is_layer_synchronous() {
    // 1 input -> hidden(1) -> output(1), all weights 1, biases 0
    let script = Script::new(vec![0.0, 1.0, 0.0, 1.0, 0.0]);
    let mut ann = ANN::new(1, vec![1], 1, &|| script.draw(), &ieee);
    ann.set_ins(vec![2.0]);
    ann.calculate(&ieee);
    // hidden = relu(2) = 2, output = sigmoid(2) within the same pass
    assert!(close(ann.get_out()[0], 1.0 / (1.0 + (-2.0f64).exp())));
    ann.set_ins(vec![-1.0]);
    ann.calculate(&ieee);
    // hidden = relu(-1) = 0, output = sigmoid(0)
    assert_eq!(ann.get_out(), vec![0.5]);
}

#[test]
fn weighted_sum_adds_the_bias_and_every_product() {
    // weights 0.5, 0.25, -1; draw 0.1 scaled to bias 1
    let script = Script::new(vec![0.5, 0.25, -1.0, 0.1]);
    let mut unit = Neurone::new(3, Activation::Relu, &|| script.draw(), &ieee);
    assert_eq!(unit.output, 0.0);
    unit.calculate(&vec![2.0, 4.0, 0.5], &ieee);
    // 1 + (0.5 * 2 + 0.25 * 4 - 1 * 0.5)
    assert_eq!(unit.output, 2.5);
    assert_eq!(unit.value(), 2.5);
    unit.activate(&ieee);
    assert_eq!(unit.output, 2.5);
    unit.calculate(&vec![-8.0, 0.0, 0.0], &ieee);
    assert_eq!(unit.output, -3.0);
    unit.activate(&ieee);
    assert_eq!(unit.output, 0.0);
}

#[test]
fn sigmoid_unit_activates_its_raw_value() {
    let script = Script::new(vec![1.0, 0.0]);
    let mut unit = Neurone::new(1, Activation::Sigmoid, &|| script.draw(), &ieee);
    unit.calculate(&vec![f64::ln(3.0)], &ieee);
    unit.activate(&ieee);
    // 1 / (1 + 1/3)
    assert!(close(unit.output, 0.75));
}

#[test]
fn cloned_unit_computes_the_same() {
    let script = Script::new(vec![0.5, -0.25, 0.3]);
    let mut unit = Neurone::new(2, Activation::Relu, &|| script.draw(), &ieee);
    let mut twin = unit.clone();
    unit.calculate(&vec![2.0, 4.0], &ieee);
    twin.calculate(&vec![2.0, 4.0], &ieee);
    assert_eq!(unit.output, 3.0);
    assert_eq!(twin.output, 3.0);
}

#[test]
fn relu_is_never_negative() {
    for x in [-1e300, -3.0, -1e-300, -0.0, 0.0, 1e-300, 0.5, 7.0, 1e300] {
        let y = relu(x, &ieee);
        assert!(y >= 0.0);
        assert_eq!(y, if x > 0.0 { x } else { 0.0 });
    }
}

#[test]
fn sigmoid_stays_between_zero_and_one() {
    for x in [-30.0, -3.0, -0.5, 0.0, 0.5, 3.0, 30.0] {
        let y = sigmoid(x, &ieee);
        assert!(0.0 < y && y < 1.0);
    }
    assert_eq!(sigmoid(0.0, &ieee), 0.5);
    assert!(close(sigmoid(1.0, &ieee), 0.7310585786300049));
}

#[test]
fn squared_error_sums_squared_residuals() {
    // two output units without weights: sigmoid(0) = 0.5 each
    let script = Script::new(vec![0.0, 0.0]);
    let mut ann = ANN::new(0, vec![], 2, &|| script.draw(), &ieee);
    ann.calculate(&ieee);
    assert_eq!(ann.get_out(), vec![0.5, 0.5]);
    // (0.5 - 0)^2 + (0.5 - 1)^2
    assert_eq!(ann.calculate_error(vec![0.0, 1.0], &ieee), 0.5);
    // only the first output is compared
    assert_eq!(ann.calculate_error(vec![1.5], &ieee), 1.0);
}

#[test]
fn squared_error_is_zero_on_equal_vectors_and_never_negative() {
    let script = Script::new(vec![0.1, -0.2, 0.3, 0.4, -0.05, 0.6, 0.7, 0.08, -0.9, 0.2, -0.01]);
    let mut ann = ANN::new(2, vec![], 3, &|| script.draw(), &ieee);
    assert_eq!(script.drawn(), 11);
    ann.set_ins(vec![1.0, -1.0]);
    ann.calculate(&ieee);
    let out = ann.get_out();
    assert_eq!(ann.calculate_error(out.clone(), &ieee), 0.0);
    assert_eq!(ann.calculate_error(vec![out[0]], &ieee), 0.0);
    assert!(ann.calculate_error(vec![0.0, 1.0, 0.0], &ieee) > 0.0);
    assert!(ann.calculate_error(vec![-4.0, 9.0], &ieee) >= 0.0);
}

#[test]
fn output_layer_is_copied_out_as_units() {
    let script = Script::new(vec![0.0, 0.5, 0.0, -0.5, 0.0]);
    let mut ann = ANN::new(1, vec![], 2, &|| script.draw(), &ieee);
    ann.set_ins(vec![2.0]);
    ann.calculate(&ieee);
    let layer = ann.get_out_layer();
    let values = ann.get_out();
    assert_eq!(layer.len(), 2);
    for (node, value) in layer.iter().zip(values.iter()) {
        match node {
            Node::Neurone(unit) => assert_eq!(unit.output, *value),
            Node::F64(_) => panic!("a plain scalar in the output layer"),
        }
    }
    assert!(close(values[0], 1.0 / (1.0 + (-1.0f64).exp())));
    assert!(close(values[1], 1.0 / (1.0 + (1.0f64).exp())));
}

#[test]
fn node_clone_keeps_the_value() {
    let node: Node<f64> = Node::F64(1.5);
    match node.clone() {
        Node::F64(v) => assert_eq!(v, 1.5),
        Node::Neurone(_) => panic!("a unit from a plain scalar"),
    }
}

#[test]
fn operations_reach_the_evaluator_with_operands_in_order() {
    // whole numbers as scalars, and an evaluator that keeps a record
    let log: RefCell<Vec<String>> = RefCell::new(Vec::new());
    let eval = |op: Op<i64>| -> i64 {
        log.borrow_mut().push(format!("{:?}", op));
        match op {
            Op::Constant(Constant::Integer(n)) => i64::from(n),
            Op::Constant(Constant::Euler) => 3,
            Op::Unary(Unary::Neg, x) => -x,
            Op::Unary(Unary::Square, x) => x * x,
            Op::Binary(Binary::Add, a, b) => a + b,
            Op::Binary(Binary::Sub, a, b) => a - b,
            Op::Binary(Binary::Mul, a, b) => a * b,
            Op::Binary(Binary::Div, a, b) => a / b,
            Op::Binary(Binary::Max, a, b) => a.max(b),
            Op::Binary(Binary::Pow, _, b) => b,
        }
    };
    let next = Cell::new(1i64);
    let source = || {
        next.set(next.get() + 1);
        next.get()
    };
    // weights 2, 3; bias 4 * 10
    let mut unit = Neurone::new(2, Activation::Relu, &source, &eval);
    log.borrow_mut().clear();
    unit.calculate(&vec![5, 7], &eval);
    assert_eq!(unit.output, 40 + (2 * 5 + 3 * 7));
    assert_eq!(
        *log.borrow(),
        vec![
            "Constant(Integer(0))",
            "Binary(Mul, 2, 5)",
            "Binary(Add, 0, 10)",
            "Binary(Mul, 3, 7)",
            "Binary(Add, 10, 21)",
            "Binary(Add, 40, 31)",
        ]
    );
    log.borrow_mut().clear();
    unit.activate(&eval);
    assert_eq!(*log.borrow(), vec!["Constant(Integer(0))", "Binary(Max, 71, 0)"]);
    log.borrow_mut().clear();
    assert_eq!(sigmoid(6, &eval), 1 / (1 + -6));
    assert_eq!(
        *log.borrow(),
        vec![
            "Constant(Integer(1))",
            "Constant(Euler)",
            "Unary(Neg, 6)",
            "Binary(Pow, 3, -6)",
            "Binary(Add, 1, -6)",
            "Binary(Div, 1, -5)",
        ]
    );
}

#[test]
fn error_subtracts_expected_from_actual() {
    let eval = |op: Op<i64>| -> i64 {
        match op {
            Op::Constant(Constant::Integer(n)) => i64::from(n),
            Op::Constant(Constant::Euler) => 3,
            Op::Unary(Unary::Neg, x) => -x,
            // keeps the sign, to tell the operands of the difference apart
            Op::Unary(Unary::Square, x) => x * x * x.signum(),
            Op::Binary(Binary::Add, a, b) => a + b,
            Op::Binary(Binary::Sub, a, b) => a - b,
            Op::Binary(Binary::Mul, a, b) => a * b,
            Op::Binary(Binary::Div, a, _) => a,
            Op::Binary(Binary::Max, a, b) => a.max(b),
            Op::Binary(Binary::Pow, _, b) => b,
        }
    };
    // one output unit without weights and with bias 20; its output after a pass is 1
    let mut ann = ANN::new(0, vec![], 1, &|| 2i64, &eval);
    ann.calculate(&eval);
    assert_eq!(ann.get_out(), vec![1]);
    assert_eq!(ann.calculate_error(vec![4], &eval), -9);
    assert_eq!(ann.calculate_error(vec![-1], &eval), 4);
}

#[test]
fn layer_values_keep_their_positions() {
    let script = Script::new(vec![0.0, 0.7]);
    let mut unit = Neurone::new(1, Activation::Relu, &|| script.draw(), &ieee);
    unit.calculate(&vec![3.0], &ieee);
    let layer = vec![Node::F64(1.5), Node::Neurone(unit), Node::F64(-2.0)];
    assert_eq!(values_of(&layer), vec![1.5, 7.0, -2.0]);
    let copy = copy_layer(&layer);
    assert_eq!(values_of(&copy), vec![1.5, 7.0, -2.0]);
    assert_eq!(values_of(&Vec::<Node<f64>>::new()), Vec::<f64>::new());
}

fn samples() -> Vec<f64> {
    vec![
        f64::NEG_INFINITY,
        -1e308,
        -40.0,
        -1.0,
        -1e-200,
        -0.0,
        0.0,
        5e-324,
        1e-200,
        0.5,
        1.0,
        40.0,
        800.0,
        1e308,
        f64::INFINITY,
        f64::NAN,
    ]
}

#[test]
fn sigmoid_never_leaves_the_unit_interval() {
    for x in samples() {
        if !x.is_nan() {
            let y = sigmoid(x, &ieee);
            assert!(0.0 <= y && y <= 1.0);
        }
    }
    assert_eq!(sigmoid(f64::INFINITY, &ieee), 1.0);
    assert_eq!(sigmoid(f64::NEG_INFINITY, &ieee), 0.0);
}

#[test]
fn relu_of_anything_is_at_least_zero() {
    for x in samples() {
        let y = relu(x, &ieee);
        assert!(y >= 0.0);
    }
}

#[test]
fn double_precision_keeps_the_signs_of_larger_squares_and_sums() {
    let zero = ieee(Op::Constant(Constant::Integer(0)));
    assert!(zero >= 0.0);
    for a in samples() {
        for b in samples() {
            if b >= 0.0 {
                assert!(ieee(Op::Binary(Binary::Max, a, b)) >= 0.0);
            }
            if a.is_finite() && b.is_finite() {
                assert!(!ieee(Op::Binary(Binary::Sub, a, b)).is_nan());
            }
            if a >= 0.0 && b >= 0.0 {
                assert!(ieee(Op::Binary(Binary::Add, a, b)) >= 0.0);
            }
        }
        if !a.is_nan() {
            assert!(ieee(Op::Unary(Unary::Square, a)) >= 0.0);
        }
    }
}

#[test]
fn double_precision_keeps_zero_at_zero() {
    let zero = ieee(Op::Constant(Constant::Integer(0)));
    assert_eq!(zero, 0.0);
    for a in samples() {
        if a.is_finite() {
            assert_eq!(ieee(Op::Binary(Binary::Sub, a, a)), 0.0);
        }
    }
    for z in [0.0, -0.0] {
        assert_eq!(ieee(Op::Unary(Unary::Square, z)), 0.0);
        for w in [0.0, -0.0] {
            assert_eq!(ieee(Op::Binary(Binary::Add, z, w)), 0.0);
        }
    }
}

#[test]
fn double_precision_keeps_the_steps_of_the_logistic_function() {
    let one = ieee(Op::Constant(Constant::Integer(1)));
    let e = ieee(Op::Constant(Constant::Euler));
    assert_eq!(one, 1.0);
    assert_eq!(e, std::f64::consts::E);
    for x in samples() {
        if !x.is_nan() {
            let minus = ieee(Op::Unary(Unary::Neg, x));
            assert!(!minus.is_nan());
            let raised = ieee(Op::Binary(Binary::Pow, e, x));
            assert!(raised >= 0.0);
            if x >= 0.0 {
                let denom = ieee(Op::Binary(Binary::Add, one, x));
                assert!(denom >= 1.0);
            }
            if x >= 1.0 {
                let q = ieee(Op::Binary(Binary::Div, one, x));
                assert!(0.0 <= q && q <= 1.0);
            }
        }
    }
}

#[test]
fn evaluator_constants_are_exact() {
    assert_eq!(ieee(Op::Constant(Constant::Integer(10))), 10.0);
    assert_eq!(ieee(Op::Constant(Constant::Integer(-3))), -3.0);
    assert_eq!(ieee(Op::Binary(Binary::Div, 1.0, 4.0)), 0.25);
    assert_eq!(ieee(Op::Binary(Binary::Pow, 2.0, 10.0)), 1024.0);
    assert_eq!(ieee(Op::Unary(Unary::Neg, 2.5)), -2.5);
}
