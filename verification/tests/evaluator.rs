//! Behaviour of the evaluator on raw input lines: arithmetic over reals and
//! complex values, the edge-case policies of each word, and numeric
//! literals.

use shilop::{evaluate, Data, MacroTable};

fn eval(input: &str) -> Vec<Data> {
    let table = MacroTable::new();
    evaluate(input.as_bytes(), &table).expect("evaluation must succeed on an empty table")
}

fn real_of(x: f64) -> Data {
    Data::Double(x.to_bits())
}

fn complex(r: f64, i: f64) -> Data {
    Data::Complex(r.to_bits(), i.to_bits())
}

fn real_value(v: &Data) -> f64 {
    match v {
        Data::Double(b) => f64::from_bits(*b),
        Data::Complex(_, _) => panic!("expected a real value"),
    }
}

#[test]
fn bit_constants_match_the_doubles() {
    assert_eq!(shilop::scalar::PI_BITS, std::f64::consts::PI.to_bits());
    assert_eq!(shilop::scalar::E_BITS, std::f64::consts::E.to_bits());
    assert_eq!(shilop::scalar::DELTA_BITS, 0.000_000_1f64.to_bits());
    assert_eq!(shilop::scalar::ONE_BITS, 1f64.to_bits());
    assert_eq!(shilop::scalar::ZERO_BITS, 0f64.to_bits());
    assert_eq!(shilop::scalar::INF_BITS, f64::INFINITY.to_bits());
    assert_eq!(shilop::scalar::NEG_INF_BITS, f64::NEG_INFINITY.to_bits());
    assert_eq!(shilop::scalar::NAN_BITS, f64::NAN.to_bits());
}

#[test]
fn addition_of_reals() {
    assert_eq!(eval("3.5 4.25 +"), vec![real_of(3.5 + 4.25)]);
    assert_eq!(eval("0.1 0.2 +"), vec![real_of(0.1 + 0.2)]);
}

#[test]
fn addition_is_commutative() {
    assert_eq!(eval("0.1 0.2 +"), eval("0.2 0.1 +"));
    assert_eq!(eval("12345.678 -0.25 +"), eval("-0.25 12345.678 +"));
}

#[test]
fn subtraction_and_multiplication() {
    assert_eq!(eval("7 2 -"), vec![real_of(5.0)]);
    assert_eq!(eval("1.5 4 *"), vec![real_of(6.0)]);
    assert_eq!(eval("0.1 0.3 *"), vec![real_of(0.1 * 0.3)]);
}

#[test]
fn real_to_imaginary_then_add() {
    assert_eq!(eval("3 4 i +"), vec![complex(3.0, 4.0)]);
}

#[test]
fn division_by_near_zero_keeps_only_the_divisor() {
    assert_eq!(eval("2 0 /"), vec![real_of(0.0)]);
    assert_eq!(eval("2 0.00000005 /"), vec![real_of(0.00000005)]);
}

#[test]
fn division_of_reals_is_exact_ieee() {
    assert_eq!(eval("1 3 /"), vec![real_of(1.0 / 3.0)]);
    assert_eq!(eval("10 4 ÷"), vec![real_of(2.5)]);
}

#[test]
fn modulo_of_reals() {
    assert_eq!(eval("5 2 %"), vec![real_of(1.0)]);
    assert_eq!(eval("7 2.5 mod"), vec![real_of(7f64 % 2.5)]);
    assert_eq!(eval("-7 2.5 %"), vec![real_of(-7f64 % 2.5)]);
}

#[test]
fn modulo_by_near_zero_restores_both_operands() {
    assert_eq!(eval("5 0 %"), vec![real_of(5.0), real_of(0.0)]);
}

#[test]
fn modulo_with_complex_operand_restores_both_operands() {
    assert_eq!(eval("3 4 i + 2 %"), vec![complex(3.0, 4.0), real_of(2.0)]);
}

#[test]
fn factorial_of_five() {
    assert_eq!(eval("5 !"), vec![real_of(120.0)]);
    assert_eq!(eval("0 fac"), vec![real_of(1.0)]);
}

#[test]
fn factorial_of_twenty_five_accumulates_in_doubles() {
    let mut acc = 1f64;
    let mut k = 25f64;
    while k > 0.0 {
        acc *= k;
        k -= 1.0;
    }
    assert_eq!(eval("25 !"), vec![real_of(acc)]);
}

#[test]
fn factorial_outside_its_domain_keeps_the_operand() {
    assert_eq!(eval("-1 !"), vec![real_of(-1.0)]);
    assert_eq!(eval("26 !"), vec![real_of(26.0)]);
    assert_eq!(eval("2.5 !"), vec![real_of(2.5)]);
    assert_eq!(eval("3 4 i + !"), vec![complex(3.0, 4.0)]);
}

#[test]
fn cosine_of_pi_is_minus_one() {
    let out = eval("pi cos");
    assert_eq!(out.len(), 1);
    assert!((real_value(&out[0]) + 1.0).abs() < 1e-9);
}

#[test]
fn sine_of_zero_and_complex_fallback() {
    assert_eq!(eval("0 sin"), vec![real_of(0.0)]);
    assert_eq!(eval("3 4 i + sin"), vec![complex(3.0, 4.0)]);
    assert_eq!(eval("3 4 i + cosine"), vec![complex(3.0, 4.0)]);
}

#[test]
fn swap_swap_leaves_the_stack_unchanged() {
    assert_eq!(eval("1 2 3 swap swap"), eval("1 2 3"));
    assert_eq!(eval("1 2 swap swap"), eval("1 2"));
    assert_eq!(eval("1 swap swap"), eval("1"));
}

#[test]
fn swap_exchanges_the_top_two() {
    assert_eq!(eval("3 4 swap"), vec![real_of(4.0), real_of(3.0)]);
}

#[test]
fn pop_removes_the_top() {
    assert_eq!(eval("1 2 pop"), vec![real_of(1.0)]);
    assert_eq!(eval("pop"), vec![]);
}

#[test]
fn constants_push_their_values() {
    assert_eq!(eval("pi"), vec![real_of(std::f64::consts::PI)]);
    assert_eq!(eval("e"), vec![real_of(std::f64::consts::E)]);
}

#[test]
fn exponential_of_zero_and_one() {
    assert_eq!(eval("0 exp"), vec![real_of(1.0)]);
    let out = eval("1 exp");
    assert!((real_value(&out[0]) - std::f64::consts::E).abs() < 1e-12);
}

#[test]
fn exponential_on_an_empty_stack_is_a_no_op() {
    assert_eq!(eval("exp"), vec![]);
}

#[test]
fn exponential_of_a_complex_value_uses_eulers_formula() {
    let out = eval("1 1 i + exp");
    match out[0] {
        Data::Complex(r, i) => {
            let e = std::f64::consts::E;
            assert!((f64::from_bits(r) - e * 1f64.cos()).abs() < 1e-9);
            assert!((f64::from_bits(i) - e * 1f64.sin()).abs() < 1e-9);
        }
        Data::Double(_) => panic!("expected a complex result"),
    }
}

#[test]
fn power_uses_the_real_parts() {
    assert_eq!(eval("2 10 pow"), vec![real_of(1024.0)]);
    assert_eq!(eval("2 10 ^"), vec![real_of(1024.0)]);
    assert_eq!(eval("2 10 **"), vec![real_of(1024.0)]);
    let out = eval("2 0.5 pow");
    assert!((real_value(&out[0]) - 2f64.sqrt()).abs() < 1e-12);
    assert_eq!(eval("3 4 i + 2 pow"), vec![real_of(9.0)]);
}

#[test]
fn abs_of_reals_and_complex_magnitude() {
    assert_eq!(eval("-3 abs"), vec![real_of(3.0)]);
    let out = eval("3 4 i + abs");
    assert!((real_value(&out[0]) - 5.0).abs() < 1e-9);
}

#[test]
fn real_and_imaginary_parts() {
    assert_eq!(eval("3 4 i + re"), vec![real_of(3.0)]);
    assert_eq!(eval("3 4 i + real"), vec![real_of(3.0)]);
    assert_eq!(eval("3 4 i + im"), vec![real_of(4.0)]);
    assert_eq!(eval("3 4 i + imaginary"), vec![real_of(4.0)]);
    assert_eq!(eval("5 im"), vec![real_of(5.0)]);
    assert_eq!(eval("5 re"), vec![real_of(5.0)]);
}

#[test]
fn imaginary_unit_on_a_complex_value_keeps_it() {
    assert_eq!(eval("5 i i"), vec![complex(0.0, 5.0)]);
}

#[test]
fn complex_multiplication_uses_the_standard_formula() {
    assert_eq!(eval("3 4 i + 1 2 i + *"), vec![complex(-5.0, 10.0)]);
    assert_eq!(eval("2 3 4 i + *"), vec![complex(6.0, 8.0)]);
    assert_eq!(eval("3 4 i + 2 *"), vec![complex(6.0, 8.0)]);
}

#[test]
fn complex_division_uses_the_conjugate_rule() {
    assert_eq!(eval("1 1 i + 1 1 i + /"), vec![complex(1.0, 0.0)]);
    assert_eq!(eval("2 4 i + 2 /"), vec![complex(1.0, 2.0)]);
}

#[test]
fn subtracting_a_complex_from_a_real_negates_its_imaginary_part() {
    assert_eq!(eval("5 1 2 i + -"), vec![complex(4.0, -2.0)]);
    assert_eq!(eval("1 2 i + 1 -"), vec![complex(0.0, 2.0)]);
}

#[test]
fn operators_short_of_operands_are_no_ops() {
    assert_eq!(eval("5 +"), vec![real_of(5.0)]);
    assert_eq!(eval("*"), vec![]);
    assert_eq!(eval("5 swap"), vec![real_of(5.0)]);
}

#[test]
fn unknown_tokens_are_dropped() {
    assert_eq!(eval("foo 5 bar"), vec![real_of(5.0)]);
    assert_eq!(eval(""), vec![]);
    assert_eq!(eval("   "), vec![]);
}

#[test]
fn numeric_literal_forms() {
    assert_eq!(eval("1e3"), vec![real_of(1000.0)]);
    assert_eq!(eval("1E3"), vec![real_of(1000.0)]);
    assert_eq!(eval(".5"), vec![real_of(0.5)]);
    assert_eq!(eval("5."), vec![real_of(5.0)]);
    assert_eq!(eval("+3"), vec![real_of(3.0)]);
    assert_eq!(eval("-2.5e-1"), vec![real_of(-0.25)]);
    assert_eq!(eval("inf"), vec![real_of(f64::INFINITY)]);
    assert_eq!(eval("-infinity"), vec![real_of(f64::NEG_INFINITY)]);
    let out = eval("nan");
    match out[0] {
        Data::Double(b) => assert!(f64::from_bits(b).is_nan()),
        Data::Complex(_, _) => panic!("expected a real NaN"),
    }
}

#[test]
fn input_case_is_normalized() {
    assert_eq!(eval("PI COS"), eval("pi cos"));
    assert_eq!(eval("3 4 I +"), vec![complex(3.0, 4.0)]);
}

#[test]
fn sum_folds_and_collapses_real_results() {
    let vals = vec![real_of(1.0), real_of(2.0), real_of(3.5)];
    assert_eq!(Data::sum(&vals), real_of(6.5));
    let vals = vec![complex(1.0, 2.0), complex(1.0, -2.0)];
    assert_eq!(Data::sum(&vals), real_of(2.0));
    let vals = vec![complex(1.0, 2.0), real_of(1.0)];
    assert_eq!(Data::sum(&vals), complex(2.0, 2.0));
    assert_eq!(Data::sum(&vec![]), real_of(0.0));
}

#[test]
fn accessors_expose_the_components() {
    let c = complex(3.0, 4.0);
    assert_eq!(c.real_part(), 3f64.to_bits());
    assert_eq!(c.im(), Some(4f64.to_bits()));
    let d = real_of(-2.0);
    assert_eq!(d.real_part(), (-2f64).to_bits());
    assert_eq!(d.im(), None);
    assert_eq!(d.abs(), real_of(2.0));
    assert_eq!(d.abs_as_bits(), 2f64.to_bits());
}
