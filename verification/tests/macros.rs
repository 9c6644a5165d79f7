//! Behaviour of the macro table: building, validation of cyclic and
//! unresolvable definitions, and expansion against the evaluator.

use shilop::{evaluate, Data, MacroDef, MacroFault, MacroTable};

fn def(name: &str, body: &[&str]) -> MacroDef {
    MacroDef {
        name: name.as_bytes().to_vec(),
        body: body.iter().map(|w| w.as_bytes().to_vec()).collect(),
    }
}

fn real_of(x: f64) -> Data {
    Data::Double(x.to_bits())
}

#[test]
fn empty_table_validates() {
    assert!(MacroTable::new().validate().is_ok());
}

#[test]
fn simple_macro_expands_and_runs() {
    let table = MacroTable::build(&vec![def("double", &["2", "*"])]);
    assert!(table.validate().is_ok());
    assert_eq!(evaluate(b"3 double", &table).unwrap(), vec![real_of(6.0)]);
}

#[test]
fn macros_expand_through_other_macros() {
    let table = MacroTable::build(&vec![
        def("quad", &["double", "double"]),
        def("double", &["2", "*"]),
    ]);
    assert!(table.validate().is_ok());
    assert_eq!(evaluate(b"3 quad", &table).unwrap(), vec![real_of(12.0)]);
}

#[test]
fn macro_names_are_normalized_to_lower_case() {
    let table = MacroTable::build(&vec![def("SQ", &["2", "POW"])]);
    assert!(table.validate().is_ok());
    assert_eq!(evaluate(b"3 sq", &table).unwrap(), vec![real_of(9.0)]);
    assert_eq!(evaluate(b"3 SQ", &table).unwrap(), vec![real_of(9.0)]);
}

#[test]
fn a_repeated_name_keeps_the_later_definition() {
    let table = MacroTable::build(&vec![def("x", &["1"]), def("x", &["2"])]);
    assert!(table.validate().is_ok());
    assert_eq!(evaluate(b"x", &table).unwrap(), vec![real_of(2.0)]);
}

#[test]
fn cyclic_definitions_fail_validation_as_cyclic() {
    let table = MacroTable::build(&vec![def("a", &["b"]), def("b", &["a"])]);
    let err = table.validate().unwrap_err();
    assert_eq!(err.fault, MacroFault::Cyclic);
    assert!(err.name == b"a".to_vec() || err.name == b"b".to_vec());
}

#[test]
fn a_direct_self_reference_is_cyclic() {
    let table = MacroTable::build(&vec![def("loop", &["loop"])]);
    let err = table.validate().unwrap_err();
    assert_eq!(err.fault, MacroFault::Cyclic);
    assert_eq!(err.name, b"loop".to_vec());
}

#[test]
fn an_undefined_word_fails_validation_as_undefined() {
    let table = MacroTable::build(&vec![def("a", &["zzz"])]);
    let err = table.validate().unwrap_err();
    assert_eq!(err.fault, MacroFault::Undefined);
    assert_eq!(err.name, b"a".to_vec());
}

#[test]
fn a_macro_depending_on_a_cycle_fails_validation() {
    let table = MacroTable::build(&vec![
        def("c", &["a"]),
        def("a", &["b"]),
        def("b", &["a"]),
    ]);
    assert!(table.validate().is_err());
}

#[test]
fn a_macro_on_a_reserved_name_is_never_expanded() {
    let table = MacroTable::build(&vec![def("pi", &["3"])]);
    assert!(table.validate().is_ok());
    assert_eq!(
        evaluate(b"pi", &table).unwrap(),
        vec![real_of(std::f64::consts::PI)]
    );
}

#[test]
fn numeric_bodies_validate() {
    let table = MacroTable::build(&vec![def("answer", &["42"])]);
    assert!(table.validate().is_ok());
    assert_eq!(evaluate(b"answer", &table).unwrap(), vec![real_of(42.0)]);
}

#[test]
fn validated_expansion_reaches_only_base_words() {
    let table = MacroTable::build(&vec![
        def("a", &["b", "b"]),
        def("b", &["c", "+"]),
        def("c", &["1"]),
    ]);
    assert!(table.validate().is_ok());
    assert_eq!(evaluate(b"a", &table).unwrap(), vec![real_of(2.0)]);
}
