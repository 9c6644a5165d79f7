//! The evaluator: runs a fully expanded word sequence left to right against
//! an operand stack, and wires tokenizing, macro expansion and the run
//! together into one evaluation of a raw input line.

use vstd::prelude::*;
use crate::data::Data;
use crate::scalar::{
    abs_bits, fac_bits, fac_operand_bits, lt_bits, rem_bits, scalar_fac, scalar_fac_operand,
    scalar_lt, scalar_rem, DELTA_BITS, E_BITS, PI_BITS, ZERO_BITS,
};
use crate::table::{
    all_base, any_expands, passes, MacroExpansionDivergence, MacroTable,
};
use crate::words::{
    is_number, is_number_token, is_reserved, lower_token, num_bits, parse_number, spec_word_of, split_spaces,
    split_tokens, to_lower, word_of, Word,
};

verus! {

/// What one word does to the operand stack.  An operator short of operands
/// is a no-op; division by a near-zero divisor keeps only the divisor;
/// modulo outside real-by-real, or by a near-zero modulus, restores both
/// operands; the factorial outside its domain keeps its operand; the trig
/// words keep a complex operand; an unknown word pushes its numeric value
/// or nothing.
pub open spec fn spec_step(stack: Seq<Data>, t: Seq<u8>) -> Seq<Data> {
    let n = stack.len() as int;
    match spec_word_of(t) {
        Word::Plus => if n >= 2 {
            stack.take(n - 2).push(stack[n - 2].spec_add(stack[n - 1]))
        } else {
            stack
        },
        Word::Minus => if n >= 2 {
            stack.take(n - 2).push(stack[n - 2].spec_sub(stack[n - 1]))
        } else {
            stack
        },
        Word::Times => if n >= 2 {
            stack.take(n - 2).push(stack[n - 2].spec_mul(stack[n - 1]))
        } else {
            stack
        },
        Word::Divide => if n >= 2 {
            if lt_bits(DELTA_BITS, stack[n - 1].spec_abs_bits()) {
                stack.take(n - 2).push(stack[n - 2].spec_div(stack[n - 1]))
            } else {
                stack.take(n - 2).push(stack[n - 1])
            }
        } else {
            stack
        },
        Word::Modulo => if n >= 2 {
            if stack[n - 2] is Double && stack[n - 1] is Double && lt_bits(
                DELTA_BITS,
                abs_bits(stack[n - 1]->Double_0),
            ) {
                stack.take(n - 2).push(
                    Data::Double(rem_bits(stack[n - 2]->Double_0, stack[n - 1]->Double_0)),
                )
            } else {
                stack
            }
        } else {
            stack
        },
        Word::Power => if n >= 2 {
            stack.take(n - 2).push(stack[n - 2].spec_pow(stack[n - 1]))
        } else {
            stack
        },
        Word::Factorial => if n >= 1 {
            if stack[n - 1] is Double && fac_operand_bits(stack[n - 1]->Double_0) is Some {
                stack.take(n - 1).push(
                    Data::Double(fac_bits(fac_operand_bits(stack[n - 1]->Double_0)->Some_0)),
                )
            } else {
                stack
            }
        } else {
            stack
        },
        Word::PiConst => stack.push(Data::Double(PI_BITS)),
        Word::EConst => stack.push(Data::Double(E_BITS)),
        Word::ExpFn => if n >= 1 {
            stack.take(n - 1).push(stack[n - 1].spec_exp())
        } else {
            stack
        },
        Word::SinFn => if n >= 1 {
            match stack[n - 1].spec_sin() {
                Some(v) => stack.take(n - 1).push(v),
                None => stack,
            }
        } else {
            stack
        },
        Word::CosFn => if n >= 1 {
            match stack[n - 1].spec_cos() {
                Some(v) => stack.take(n - 1).push(v),
                None => stack,
            }
        } else {
            stack
        },
        Word::SwapOp => if n >= 2 {
            stack.take(n - 2).push(stack[n - 1]).push(stack[n - 2])
        } else {
            stack
        },
        Word::PopOp => if n >= 1 {
            stack.take(n - 1)
        } else {
            stack
        },
        Word::AbsFn => if n >= 1 {
            stack.take(n - 1).push(Data::Double(stack[n - 1].spec_abs_bits()))
        } else {
            stack
        },
        Word::RealFn => if n >= 1 {
            stack.take(n - 1).push(Data::Double(stack[n - 1].spec_real()))
        } else {
            stack
        },
        Word::ImagUnit => if n >= 1 {
            match stack[n - 1] {
                Data::Double(d) => stack.take(n - 1).push(Data::Complex(ZERO_BITS, d)),
                Data::Complex(_, _) => stack,
            }
        } else {
            stack
        },
        Word::ImagFn => if n >= 1 {
            match stack[n - 1] {
                Data::Double(_) => stack,
                Data::Complex(_, c) => stack.take(n - 1).push(Data::Double(c)),
            }
        } else {
            stack
        },
        Word::Other => if is_number(t) {
            stack.push(Data::Double(num_bits(t)))
        } else {
            stack
        },
    }
}

/// The stack that running a word sequence leaves, word by word from an
/// initial stack.
pub open spec fn run_spec(stack: Seq<Data>, toks: Seq<Seq<u8>>) -> Seq<Data>
    decreases toks.len(),
{
    if toks.len() == 0 {
        stack
    } else {
        spec_step(run_spec(stack, toks.drop_last()), toks.last())
    }
}

/// Runs a word sequence against a fresh operand stack, as `run_spec` of
/// the empty stack states.
pub fn run(tokens: &Vec<Vec<u8>>) -> (r: Vec<Data>)
    ensures
        r@ == run_spec(Seq::empty(), tokens.deep_view()),
{
    let ghost tv = tokens.deep_view();
    let mut data: Vec<Data> = Vec::new();
    let mut i: usize = 0;
    while i < tokens.len()
        invariant
            0 <= i <= tokens@.len(),
            tv == tokens.deep_view(),
            tv.len() == tokens@.len(),
            data@ == run_spec(Seq::empty(), tv.take(i as int)),
        decreases tokens@.len() - i,
    {
        let t = tokens[i].as_slice();
        proof {
            assert(tv[i as int] == t@);
            assert(tv.take(i + 1 as int).drop_last() =~= tv.take(i as int));
        }
        let ghost prev = data@;
        match word_of(t) {
            Word::Plus => {
                if data.len() > 1 {
                    let op2 = data.pop().unwrap();
                    let op1 = data.pop().unwrap();
                    data.push(op1.add(op2));
                    proof {
                        assert(data@ =~= prev.take(prev.len() - 2).push(
                            prev[prev.len() - 2].spec_add(prev[prev.len() - 1]),
                        ));
                    }
                }
            },
            Word::Minus => {
                if data.len() > 1 {
                    let op2 = data.pop().unwrap();
                    let op1 = data.pop().unwrap();
                    data.push(op1.sub(op2));
                    proof {
                        assert(data@ =~= prev.take(prev.len() - 2).push(
                            prev[prev.len() - 2].spec_sub(prev[prev.len() - 1]),
                        ));
                    }
                }
            },
            Word::Times => {
                if data.len() > 1 {
                    let op2 = data.pop().unwrap();
                    let op1 = data.pop().unwrap();
                    data.push(op1.mul(op2));
                    proof {
                        assert(data@ =~= prev.take(prev.len() - 2).push(
                            prev[prev.len() - 2].spec_mul(prev[prev.len() - 1]),
                        ));
                    }
                }
            },
            Word::Divide => {
                if data.len() > 1 {
                    let op2 = data.pop().unwrap();
                    let op1 = data.pop().unwrap();
                    if scalar_lt(DELTA_BITS, op2.abs_as_bits()) {
                        data.push(op1.div(op2));
                        proof {
                            assert(data@ =~= prev.take(prev.len() - 2).push(
                                prev[prev.len() - 2].spec_div(prev[prev.len() - 1]),
                            ));
                        }
                    } else {
                        data.push(op2);
                        proof {
                            assert(data@ =~= prev.take(prev.len() - 2).push(
                                prev[prev.len() - 1],
                            ));
                        }
                    }
                }
            },
            Word::Modulo => {
                if data.len() > 1 {
                    let op2 = data.pop().unwrap();
                    let op1 = data.pop().unwrap();
                    match (op1, op2) {
                        (Data::Double(r1), Data::Double(m)) => {
                            if scalar_lt(DELTA_BITS, m & 0x7FFF_FFFF_FFFF_FFFF) {
                                data.push(Data::Double(scalar_rem(r1, m)));
                                proof {
                                    assert(data@ =~= prev.take(prev.len() - 2).push(
                                        Data::Double(
                                            rem_bits(
                                                prev[prev.len() - 2]->Double_0,
                                                prev[prev.len() - 1]->Double_0,
                                            ),
                                        ),
                                    ));
                                }
                            } else {
                                data.push(op1);
                                data.push(op2);
                                proof {
                                    assert(data@ =~= prev);
                                }
                            }
                        },
                        _ => {
                            data.push(op1);
                            data.push(op2);
                            proof {
                                assert(data@ =~= prev);
                            }
                        },
                    }
                }
            },
            Word::Power => {
                if data.len() > 1 {
                    let op2 = data.pop().unwrap();
                    let op1 = data.pop().unwrap();
                    data.push(op1.pow(op2));
                    proof {
                        assert(data@ =~= prev.take(prev.len() - 2).push(
                            prev[prev.len() - 2].spec_pow(prev[prev.len() - 1]),
                        ));
                    }
                }
            },
            Word::Factorial => {
                if data.len() > 0 {
                    let top = data.pop().unwrap();
                    match top {
                        Data::Double(d) => {
                            match scalar_fac_operand(d) {
                                Some(fn_arg) => {
                                    data.push(Data::Double(scalar_fac(fn_arg)));
                                },
                                None => {
                                    data.push(top);
                                },
                            }
                        },
                        Data::Complex(_, _) => {
                            data.push(top);
                        },
                    }
                    proof {
                        assert(data@ =~= spec_step(prev, tv[i as int]));
                    }
                }
            },
            Word::PiConst => {
                data.push(Data::Double(PI_BITS));
            },
            Word::EConst => {
                data.push(Data::Double(E_BITS));
            },
            Word::ExpFn => {
                if data.len() > 0 {
                    let top = data.pop().unwrap();
                    data.push(top.exp());
                    proof {
                        assert(data@ =~= prev.take(prev.len() - 1).push(
                            prev[prev.len() - 1].spec_exp(),
                        ));
                    }
                }
            },
            Word::SinFn => {
                if data.len() > 0 {
                    let top = data.pop().unwrap();
                    match top.sin() {
                        Some(v) => data.push(v),
                        None => data.push(top),
                    }
                    proof {
                        assert(data@ =~= spec_step(prev, tv[i as int]));
                    }
                }
            },
            Word::CosFn => {
                if data.len() > 0 {
                    let top = data.pop().unwrap();
                    match top.cos() {
                        Some(v) => data.push(v),
                        None => data.push(top),
                    }
                    proof {
                        assert(data@ =~= spec_step(prev, tv[i as int]));
                    }
                }
            },
            Word::SwapOp => {
                if data.len() > 1 {
                    let head = data.pop().unwrap();
                    let second = data.pop().unwrap();
                    data.push(head);
                    data.push(second);
                    proof {
                        assert(data@ =~= prev.take(prev.len() - 2).push(
                            prev[prev.len() - 1],
                        ).push(prev[prev.len() - 2]));
                    }
                }
            },
            Word::PopOp => {
                if data.len() > 0 {
                    let _ = data.pop();
                    proof {
                        assert(data@ =~= prev.take(prev.len() - 1));
                    }
                }
            },
            Word::AbsFn => {
                if data.len() > 0 {
                    let top = data.pop().unwrap();
                    data.push(top.abs());
                    proof {
                        assert(data@ =~= prev.take(prev.len() - 1).push(
                            Data::Double(prev[prev.len() - 1].spec_abs_bits()),
                        ));
                    }
                }
            },
            Word::RealFn => {
                if data.len() > 0 {
                    let top = data.pop().unwrap();
                    data.push(Data::Double(top.real_part()));
                    proof {
                        assert(data@ =~= prev.take(prev.len() - 1).push(
                            Data::Double(prev[prev.len() - 1].spec_real()),
                        ));
                    }
                }
            },
            Word::ImagUnit => {
                if data.len() > 0 {
                    let top = data.pop().unwrap();
                    match top {
                        Data::Double(d) => data.push(Data::Complex(ZERO_BITS, d)),
                        Data::Complex(_, _) => data.push(top),
                    }
                    proof {
                        assert(data@ =~= spec_step(prev, tv[i as int]));
                    }
                }
            },
            Word::ImagFn => {
                if data.len() > 0 {
                    let top = data.pop().unwrap();
                    match top {
                        Data::Double(_) => data.push(top),
                        Data::Complex(_, c) => data.push(Data::Double(c)),
                    }
                    proof {
                        assert(data@ =~= spec_step(prev, tv[i as int]));
                    }
                }
            },
            Word::Other => {
                if is_number_token(t) {
                    let v = parse_number(t);
                    data.push(Data::Double(v));
                }
            },
        }
        proof {
            assert(data@ =~= spec_step(prev, tv[i as int]));
        }
        i += 1;
    }
    proof {
        assert(tv.take(tv.len() as int) =~= tv);
    }
    data
}

/// Two swaps cancel: running any word sequence extended by `swap swap`
/// leaves exactly the stack that running the sequence alone leaves,
/// whatever the stack holds.
pub proof fn lemma_swap_swap(toks: Seq<Seq<u8>>)
    ensures
        run_spec(
            Seq::empty(),
            toks + seq![seq![115u8, 119u8, 97u8, 112u8], seq![115u8, 119u8, 97u8, 112u8]],
        ) == run_spec(Seq::empty(), toks),
{
    let sw = seq![115u8, 119u8, 97u8, 112u8];
    let ext = toks + seq![sw, sw];
    assert(ext.drop_last() =~= toks.push(sw));
    assert(toks.push(sw).drop_last() =~= toks);
    let s0 = run_spec(Seq::empty(), toks);
    assert(spec_word_of(sw) == Word::SwapOp);
    let s1 = spec_step(s0, sw);
    let s2 = spec_step(s1, sw);
    if s0.len() >= 2 {
        let n = s0.len() as int;
        assert(s1 == s0.take(n - 2).push(s0[n - 1]).push(s0[n - 2]));
        assert(s1.len() == n);
        assert(s2 =~= s0);
    }
    assert(ext.last() == sw);
    assert(toks.push(sw).last() == sw);
    assert(run_spec(Seq::empty(), toks.push(sw)) == s1);
    assert(run_spec(Seq::empty(), ext) == s2);
}

/// Adding two numeric literals: running `a b +` on a fresh stack leaves
/// exactly one real, the rounded sum of the literals' values.
pub proof fn lemma_add_literals(a: Seq<u8>, b: Seq<u8>)
    requires
        is_number(a),
        !is_reserved(a),
        is_number(b),
        !is_reserved(b),
    ensures
        run_spec(Seq::empty(), seq![a, b, seq![43u8]]) == seq![
            Data::Double(crate::scalar::add_bits(num_bits(a), num_bits(b))),
        ],
{
    let plus = seq![43u8];
    let toks = seq![a, b, plus];
    assert(toks.drop_last() =~= seq![a, b]);
    assert(seq![a, b].drop_last() =~= seq![a]);
    assert(seq![a].drop_last() =~= Seq::<Seq<u8>>::empty());
    let s1 = spec_step(Seq::empty(), a);
    assert(s1 == seq![Data::Double(num_bits(a))]);
    let s2 = spec_step(s1, b);
    assert(s2 =~= seq![Data::Double(num_bits(a)), Data::Double(num_bits(b))]);
    assert(spec_word_of(plus) == Word::Plus);
    let s3 = spec_step(s2, plus);
    assert(s3 =~= seq![Data::Double(crate::scalar::add_bits(num_bits(a), num_bits(b)))]);
    assert(seq![a].last() == a);
    assert(run_spec(Seq::empty(), Seq::<Seq<u8>>::empty()) == Seq::<Data>::empty());
    assert(run_spec(Seq::empty(), seq![a]) == s1);
    assert(seq![a, b].last() == b);
    assert(run_spec(Seq::empty(), seq![a, b]) == spec_step(s1, b));
    assert(toks.last() == plus);
    assert(run_spec(Seq::empty(), toks) == spec_step(s2, plus));
}

/// The lower-cased, space-split tokens of a raw input line.
pub open spec fn spec_tokens(s: Seq<u8>) -> Seq<Seq<u8>> {
    split_spaces(lower_token(s))
}

/// Evaluates one raw input line against a macro table: the line is split
/// on spaces and lower-cased, macro names are expanded to a fixed point,
/// and the fully expanded words run against a fresh operand stack.  The
/// result is the final stack, bottom first.  On a fully validated table
/// evaluation always succeeds; only an unvalidated, diverging table is
/// reported.
pub fn evaluate(input: &[u8], table: &MacroTable) -> (r: Result<Vec<Data>, MacroExpansionDivergence>)
    ensures
        table.fully_validated() ==> r is Ok,
        r is Err ==> !table.fully_validated(),
        r matches Ok(vals) ==> exists|j: nat|
            {
                &&& all_base(table@, #[trigger] passes(table@, spec_tokens(input@), j))
                &&& !any_expands(table@, passes(table@, spec_tokens(input@), j))
                &&& vals@ == run_spec(Seq::empty(), passes(table@, spec_tokens(input@), j))
            },
{
    let lowered = to_lower(input);
    let raw = split_tokens(lowered.as_slice());
    proof {
        assert(raw.deep_view() == spec_tokens(input@));
    }
    match table.expand(&raw) {
        Ok(expanded) => {
            let vals = run(&expanded);
            Ok(vals)
        },
        Err(e) => Err(e),
    }
}

} // verus!
