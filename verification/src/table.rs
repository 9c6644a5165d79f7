//! The macro table: an immutable mapping from a word to its replacement
//! token sequence, with the validator that rejects cyclic or unresolvable
//! definitions, and macro expansion to a fixed point.

use vstd::prelude::*;
use vstd::pervasive::VecAdditionalExecFns;
use crate::words::{is_number, is_number_token, is_reserved, lower_token, to_lower, word_of, Word};

verus! {

/// One macro definition: a name and its ordered replacement tokens.
pub struct MacroDef {
    pub name: Vec<u8>,
    pub body: Vec<Vec<u8>>,
}

/// The immutable macro table.  Its view is the mapping from macro name to
/// body; a name defined twice keeps the later body.
pub struct MacroTable {
    defs: Vec<MacroDef>,
}

/// The mapping that a definition sequence denotes: later entries win.
pub open spec fn map_of(defs: Seq<MacroDef>) -> Map<Seq<u8>, Seq<Seq<u8>>>
    decreases defs.len(),
{
    if defs.len() == 0 {
        Map::empty()
    } else {
        map_of(defs.drop_last()).insert(
            defs.last().name@,
            defs.last().body.deep_view(),
        )
    }
}

/// Lower-casing of every token of a body.
pub open spec fn lower_body(body: Seq<Seq<u8>>) -> Seq<Seq<u8>> {
    body.map_values(|t: Seq<u8>| lower_token(t))
}

/// The mapping that building from raw entries produces: every name and
/// every body token is lower-cased, and a repeated name keeps the later
/// body.
pub open spec fn built_map(entries: Seq<MacroDef>) -> Map<Seq<u8>, Seq<Seq<u8>>>
    decreases entries.len(),
{
    if entries.len() == 0 {
        Map::empty()
    } else {
        built_map(entries.drop_last()).insert(
            lower_token(entries.last().name@),
            lower_body(entries.last().body.deep_view()),
        )
    }
}

spec fn unique_names(defs: Seq<MacroDef>) -> bool {
    forall|i: int, j: int|
        0 <= i < j < defs.len() ==> (#[trigger] defs[i].name@) != (#[trigger] defs[j].name@)
}

/// With pairwise distinct names, each definition is what the mapping holds
/// at its name.
proof fn lemma_map_of_index(defs: Seq<MacroDef>, i: int)
    requires
        unique_names(defs),
        0 <= i < defs.len(),
    ensures
        map_of(defs).contains_key(defs[i].name@),
        map_of(defs)[defs[i].name@] == defs[i].body.deep_view(),
    decreases defs.len(),
{
    if i < defs.len() - 1 {
        lemma_map_of_index(defs.drop_last(), i);
    }
}

/// Every key of the mapping names some definition.
proof fn lemma_map_of_dom(defs: Seq<MacroDef>, t: Seq<u8>)
    requires
        map_of(defs).contains_key(t),
    ensures
        exists|i: int| 0 <= i < defs.len() && (#[trigger] defs[i].name@) == t,
    decreases defs.len(),
{
    if defs.len() > 0 && defs.last().name@ != t {
        lemma_map_of_dom(defs.drop_last(), t);
    }
}

/// Replacing the body of the definition at a repeated name's index denotes
/// the same mapping as inserting over it.
proof fn lemma_map_of_set(defs: Seq<MacroDef>, j: int, d: MacroDef)
    requires
        unique_names(defs),
        0 <= j < defs.len(),
        d.name@ == defs[j].name@,
    ensures
        map_of(defs.update(j, d)) =~= map_of(defs).insert(d.name@, d.body.deep_view()),
    decreases defs.len(),
{
    if j == defs.len() - 1 {
        assert(defs.update(j, d).drop_last() =~= defs.drop_last());
    } else {
        lemma_map_of_set(defs.drop_last(), j, d);
        assert(defs.update(j, d).drop_last() =~= defs.drop_last().update(j, d));
        assert(defs.update(j, d).last() == defs.last());
    }
}

fn bytes_eq(a: &[u8], b: &[u8]) -> (r: bool)
    ensures
        r == (a@ == b@),
{
    if a.len() != b.len() {
        return false;
    }
    let mut i: usize = 0;
    while i < a.len()
        invariant
            0 <= i <= a@.len(),
            a@.len() == b@.len(),
            forall|j: int| 0 <= j < i ==> a@[j] == b@[j],
        decreases a@.len() - i,
    {
        if a[i] != b[i] {
            return false;
        }
        i += 1;
    }
    proof {
        assert(a@ =~= b@);
    }
    true
}

/// The index of the definition with the given name, if any.
fn find_def(defs: &Vec<MacroDef>, name: &[u8]) -> (r: Option<usize>)
    ensures
        match r {
            Some(j) => 0 <= j < defs@.len() && defs@[j as int].name@ == name@,
            None => forall|j: int| 0 <= j < defs@.len() ==> (#[trigger] defs@[j].name@) != name@,
        },
{
    let mut j: usize = 0;
    while j < defs.len()
        invariant
            0 <= j <= defs@.len(),
            forall|k: int| 0 <= k < j ==> (#[trigger] defs@[k].name@) != name@,
        decreases defs@.len() - j,
    {
        if bytes_eq(defs[j].name.as_slice(), name) {
            return Some(j);
        }
        j += 1;
    }
    None
}

/// Resolution within `k` substitution rounds: a reserved word stands; a
/// macro name (reserved words win first) needs every token of its body to
/// resolve within `k - 1` rounds; any other token must read as a number.
pub open spec fn token_resolves(m: Map<Seq<u8>, Seq<Seq<u8>>>, t: Seq<u8>, k: nat) -> bool
    decreases k,
{
    if is_reserved(t) {
        true
    } else if m.contains_key(t) {
        &&& k > 0
        &&& forall|i: int|
            0 <= i < m[t].len() ==> token_resolves(m, #[trigger] m[t][i], (k - 1) as nat)
    } else {
        is_number(t)
    }
}

/// The token resolves within some number of rounds.
pub open spec fn resolvable(m: Map<Seq<u8>, Seq<Seq<u8>>>, t: Seq<u8>) -> bool {
    exists|k: nat| token_resolves(m, t, k)
}

/// A valid table: every defined macro name resolves.
pub open spec fn table_valid(m: Map<Seq<u8>, Seq<Seq<u8>>>) -> bool {
    forall|t: Seq<u8>| #[trigger] m.contains_key(t) ==> resolvable(m, t)
}

/// A token nothing resolves: not reserved, not a macro name of the table,
/// and not a numeric literal.
pub open spec fn dead_token(m: Map<Seq<u8>, Seq<Seq<u8>>>, t: Seq<u8>) -> bool {
    !is_reserved(t) && !m.contains_key(t) && !is_number(t)
}

/// Resolution only grows with the round budget.
pub proof fn lemma_resolves_mono(m: Map<Seq<u8>, Seq<Seq<u8>>>, t: Seq<u8>, k1: nat, k2: nat)
    requires
        token_resolves(m, t, k1),
        k1 <= k2,
    ensures
        token_resolves(m, t, k2),
    decreases k1,
{
    if !is_reserved(t) && m.contains_key(t) {
        assert forall|i: int| 0 <= i < m[t].len() implies token_resolves(
            m,
            #[trigger] m[t][i],
            (k2 - 1) as nat,
        ) by {
            lemma_resolves_mono(m, m[t][i], (k1 - 1) as nat, (k2 - 1) as nat);
        }
    }
}

/// Why a macro table is rejected.
#[derive(Clone, Copy, PartialEq, Eq, Structural, Debug)]
pub enum MacroFault {
    /// The macro's body directly uses a word that is neither reserved, nor
    /// a macro name, nor a numeric literal.
    Undefined,
    /// The macro takes part in, or depends on, a cycle of definitions.
    Cyclic,
}

/// The report of a rejected table: a macro that can never resolve.
#[derive(Debug)]
pub struct MacroError {
    pub name: Vec<u8>,
    pub fault: MacroFault,
}

spec fn count_true(s: Seq<bool>) -> nat
    decreases s.len(),
{
    if s.len() == 0 {
        0
    } else {
        count_true(s.drop_last()) + if s.last() {
            1nat
        } else {
            0nat
        }
    }
}

spec fn count_true_missing(s: Seq<bool>) -> nat {
    (s.len() - count_true(s)) as nat
}

proof fn lemma_count_none(s: Seq<bool>)
    requires
        forall|i: int| 0 <= i < s.len() ==> !(#[trigger] s[i]),
    ensures
        count_true(s) == 0,
    decreases s.len(),
{
    if s.len() > 0 {
        lemma_count_none(s.drop_last());
    }
}

proof fn lemma_count_le(s: Seq<bool>)
    ensures
        count_true(s) <= s.len(),
    decreases s.len(),
{
    if s.len() > 0 {
        lemma_count_le(s.drop_last());
    }
}

proof fn lemma_count_update(s: Seq<bool>, i: int)
    requires
        0 <= i < s.len(),
        !s[i],
    ensures
        count_true(s.update(i, true)) == count_true(s) + 1,
    decreases s.len(),
{
    if i == s.len() - 1 {
        assert(s.update(i, true).drop_last() =~= s.drop_last());
    } else {
        lemma_count_update(s.drop_last(), i);
        assert(s.update(i, true).drop_last() =~= s.drop_last().update(i, true));
        assert(s.update(i, true).last() == s.last());
    }
}

/// A body token a marking round accepts: reserved, a macro already marked
/// resolvable, or (naming no macro) numeric.
spec fn spec_token_ok(defs: Seq<MacroDef>, marked: Seq<bool>, t: Seq<u8>) -> bool {
    ||| is_reserved(t)
    ||| exists|j: int| 0 <= j < defs.len() && (#[trigger] defs[j].name@) == t && marked[j]
    ||| ((forall|j: int| 0 <= j < defs.len() ==> (#[trigger] defs[j].name@) != t) && is_number(t))
}

spec fn spec_body_ok(defs: Seq<MacroDef>, marked: Seq<bool>, body: Seq<Seq<u8>>) -> bool {
    forall|i: int| 0 <= i < body.len() ==> spec_token_ok(defs, marked, #[trigger] body[i])
}

spec fn markable(defs: Seq<MacroDef>, marked: Seq<bool>, i: int) -> bool {
    is_reserved(defs[i].name@) || spec_body_ok(defs, marked, defs[i].body.deep_view())
}

/// Every mark is justified: a marked macro's name resolves within the
/// number of marks granted so far.
spec fn sound(defs: Seq<MacroDef>, marked: Seq<bool>) -> bool {
    forall|i: int|
        0 <= i < defs.len() && (#[trigger] marked[i]) ==> token_resolves(
            map_of(defs),
            defs[i].name@,
            count_true(marked),
        )
}

/// No further macro can be marked.
spec fn stable(defs: Seq<MacroDef>, marked: Seq<bool>) -> bool {
    forall|i: int| 0 <= i < defs.len() && !(#[trigger] marked[i]) ==> !markable(defs, marked, i)
}

/// Once marking is stable, an unmarked macro's name resolves under no
/// round budget at all.
proof fn lemma_stuck(defs: Seq<MacroDef>, marked: Seq<bool>, t: Seq<u8>, k: nat)
    requires
        unique_names(defs),
        marked.len() == defs.len(),
        stable(defs, marked),
        exists|i: int| 0 <= i < defs.len() && (#[trigger] defs[i].name@) == t && !marked[i],
    ensures
        !token_resolves(map_of(defs), t, k),
    decreases k,
{
    let m = map_of(defs);
    let i = choose|i: int| 0 <= i < defs.len() && (#[trigger] defs[i].name@) == t && !marked[i];
    lemma_map_of_index(defs, i);
    if token_resolves(m, t, k) {
        if is_reserved(t) {
            assert(markable(defs, marked, i));
            assert(false);
        } else {
            let body = defs[i].body.deep_view();
            assert forall|b: int| 0 <= b < body.len() implies spec_token_ok(
                defs,
                marked,
                #[trigger] body[b],
            ) by {
                let s = body[b];
                assert(token_resolves(m, s, (k - 1) as nat));
                if !is_reserved(s) {
                    if exists|j: int| 0 <= j < defs.len() && (#[trigger] defs[j].name@) == s {
                        let j = choose|j: int|
                            0 <= j < defs.len() && (#[trigger] defs[j].name@) == s;
                        if !marked[j] {
                            lemma_stuck(defs, marked, s, (k - 1) as nat);
                            assert(false);
                        }
                    } else {
                        if m.contains_key(s) {
                            lemma_map_of_dom(defs, s);
                            assert(false);
                        }
                    }
                }
            }
            assert(markable(defs, marked, i));
            assert(false);
        }
    }
}

/// Copies a byte token.
fn clone_bytes(v: &Vec<u8>) -> (r: Vec<u8>)
    ensures
        r@ == v@,
{
    let mut out: Vec<u8> = Vec::new();
    let mut i: usize = 0;
    while i < v.len()
        invariant
            0 <= i <= v@.len(),
            out@ =~= v@.take(i as int),
        decreases v@.len() - i,
    {
        out.push(v[i]);
        proof {
            assert(out@ =~= v@.take(i + 1 as int));
        }
        i += 1;
    }
    proof {
        assert(v@.take(v@.len() as int) =~= v@);
    }
    out
}

/// A byte vector's deep view is its view.
proof fn lemma_bytes_deep(v: Vec<u8>)
    ensures
        v.deep_view() =~= v@,
{
}

/// Decides `spec_token_ok`.
fn token_ok(defs: &Vec<MacroDef>, marked: &Vec<bool>, t: &[u8]) -> (r: bool)
    requires
        unique_names(defs@),
        marked@.len() == defs@.len(),
    ensures
        r == spec_token_ok(defs@, marked@, t@),
{
    if !matches!(word_of(t), Word::Other) {
        return true;
    }
    match find_def(defs, t) {
        Some(j) => {
            let r = marked[j];
            proof {
                if !r && exists|x: int|
                    0 <= x < defs@.len() && (#[trigger] defs@[x].name@) == t@ && marked@[x] {
                    let x = choose|x: int|
                        0 <= x < defs@.len() && (#[trigger] defs@[x].name@) == t@ && marked@[x];
                    assert(x == j);
                }
            }
            r
        },
        None => is_number_token(t),
    }
}

/// Decides `spec_body_ok`.
fn body_ok(defs: &Vec<MacroDef>, marked: &Vec<bool>, body: &Vec<Vec<u8>>) -> (r: bool)
    requires
        unique_names(defs@),
        marked@.len() == defs@.len(),
    ensures
        r == spec_body_ok(defs@, marked@, body.deep_view()),
{
    let mut i: usize = 0;
    while i < body.len()
        invariant
            0 <= i <= body@.len(),
            unique_names(defs@),
            marked@.len() == defs@.len(),
            forall|j: int| 0 <= j < i ==> spec_token_ok(defs@, marked@, #[trigger] body.deep_view()[j]),
        decreases body@.len() - i,
    {
        let ok = token_ok(defs, marked, body[i].as_slice());
        proof {
            assert(body.deep_view()[i as int] == body@[i as int]@);
        }
        if !ok {
            return false;
        }
        i += 1;
    }
    true
}

/// One marking round: marks every macro whose name is reserved or whose
/// body the current marks accept; reports whether anything changed.
fn mark_pass(defs: &Vec<MacroDef>, marked: &mut Vec<bool>) -> (changed: bool)
    requires
        unique_names(defs@),
        old(marked)@.len() == defs@.len(),
        sound(defs@, old(marked)@),
    ensures
        final(marked)@.len() == defs@.len(),
        sound(defs@, final(marked)@),
        count_true(old(marked)@) <= count_true(final(marked)@),
        changed ==> count_true(old(marked)@) < count_true(final(marked)@),
        !changed ==> final(marked)@ == old(marked)@ && stable(defs@, final(marked)@),
{
    let ghost marked0 = marked@;
    let mut changed = false;
    let mut i: usize = 0;
    while i < defs.len()
        invariant
            unique_names(defs@),
            marked@.len() == defs@.len(),
            sound(defs@, marked@),
            count_true(marked0) <= count_true(marked@),
            changed ==> count_true(marked0) < count_true(marked@),
            !changed ==> marked@ == marked0 && forall|x: int|
                0 <= x < i && !(#[trigger] marked@[x]) ==> !markable(defs@, marked@, x),
        decreases defs@.len() - i,
    {
        if !marked[i] {
            let name_reserved = !matches!(word_of(defs[i].name.as_slice()), Word::Other);
            let ok = name_reserved || body_ok(defs, marked, &defs[i].body);
            if ok {
                proof {
                    let m = map_of(defs@);
                    let c = count_true(marked@);
                    lemma_count_update(marked@, i as int);
                    lemma_map_of_index(defs@, i as int);
                    let name = defs@[i as int].name@;
                    if !is_reserved(name) {
                        assert forall|b: int| 0 <= b < m[name].len() implies token_resolves(
                            m,
                            #[trigger] m[name][b],
                            c,
                        ) by {
                            let s = m[name][b];
                            assert(spec_token_ok(defs@, marked@, s));
                            if !is_reserved(s) {
                                if exists|j: int|
                                    0 <= j < defs@.len() && (#[trigger] defs@[j].name@) == s
                                        && marked@[j] {
                                    let j = choose|j: int|
                                        0 <= j < defs@.len() && (#[trigger] defs@[j].name@) == s
                                            && marked@[j];
                                    assert(token_resolves(m, s, c));
                                } else {
                                    if m.contains_key(s) {
                                        lemma_map_of_dom(defs@, s);
                                        let j = choose|j: int|
                                            0 <= j < defs@.len() && (#[trigger] defs@[j].name@)
                                                == s;
                                        assert(false);
                                    }
                                }
                            }
                        }
                        assert(token_resolves(m, name, (c + 1) as nat));
                    }
                    assert forall|x: int|
                        0 <= x < defs@.len() && (#[trigger] marked@.update(i as int, true)[x])
                            implies token_resolves(
                        m,
                        defs@[x].name@,
                        count_true(marked@.update(i as int, true)),
                    ) by {
                        if x != i {
                            assert(marked@[x]);
                            lemma_resolves_mono(m, defs@[x].name@, c, (c + 1) as nat);
                        } else {
                            if is_reserved(defs@[x].name@) {
                            } else {
                                assert(token_resolves(m, name, (c + 1) as nat));
                            }
                        }
                    }
                }
                marked.set(i, true);
                changed = true;
            }
        }
        i += 1;
    }
    changed
}

/// Tells a direct undefined word apart from a cyclic dependency, for the
/// rejection report of the definition at `i`.
fn classify_fault(defs: &Vec<MacroDef>, i: usize) -> (fault: MacroFault)
    requires
        unique_names(defs@),
        0 <= i < defs@.len(),
    ensures
        fault == MacroFault::Undefined <==> exists|b: int|
            0 <= b < map_of(defs@)[defs@[i as int].name@].len() && dead_token(
                map_of(defs@),
                #[trigger] map_of(defs@)[defs@[i as int].name@][b],
            ),
{
    proof {
        lemma_map_of_index(defs@, i as int);
    }
    let body = &defs[i].body;
    let mut b: usize = 0;
    while b < body.len()
        invariant
            unique_names(defs@),
            0 <= i < defs@.len(),
            0 <= b <= body@.len(),
            body == &defs@[i as int].body,
            map_of(defs@)[defs@[i as int].name@] == body.deep_view(),
            forall|x: int| 0 <= x < b ==> !dead_token(
                map_of(defs@),
                #[trigger] body.deep_view()[x],
            ),
        decreases body@.len() - b,
    {
        let t = body[b].as_slice();
        proof {
            assert(body.deep_view()[b as int] == body@[b as int]@);
        }
        if matches!(word_of(t), Word::Other) {
            match find_def(defs, t) {
                Some(j) => {
                    proof {
                        lemma_map_of_index(defs@, j as int);
                    }
                },
                None => {
                    if !is_number_token(t) {
                        proof {
                            if map_of(defs@).contains_key(t@) {
                                lemma_map_of_dom(defs@, t@);
                            }
                            assert(dead_token(map_of(defs@), body.deep_view()[b as int]));
                        }
                        return MacroFault::Undefined;
                    }
                },
            }
        }
        b += 1;
    }
    MacroFault::Cyclic
}

/// The defensive failure of expansion: no fixed point was reached within
/// the bound that a validated table guarantees.
#[derive(Clone, Copy, PartialEq, Eq, Structural, Debug)]
pub struct MacroExpansionDivergence;

/// What one substitution round makes of one token: a reserved word stands;
/// a macro name becomes its body; a numeric literal stands; any other
/// token is dropped.
pub open spec fn expand_token(m: Map<Seq<u8>, Seq<Seq<u8>>>, t: Seq<u8>) -> Seq<Seq<u8>> {
    if is_reserved(t) {
        seq![t]
    } else if m.contains_key(t) {
        m[t]
    } else if is_number(t) {
        seq![t]
    } else {
        Seq::empty()
    }
}

/// The token is substituted by a round: a non-reserved macro name.
pub open spec fn expands(m: Map<Seq<u8>, Seq<Seq<u8>>>, t: Seq<u8>) -> bool {
    !is_reserved(t) && m.contains_key(t)
}

/// One whole substitution round over a token sequence, in order.
pub open spec fn pass_seq(m: Map<Seq<u8>, Seq<Seq<u8>>>, toks: Seq<Seq<u8>>) -> Seq<Seq<u8>>
    decreases toks.len(),
{
    if toks.len() == 0 {
        Seq::empty()
    } else {
        pass_seq(m, toks.drop_last()) + expand_token(m, toks.last())
    }
}

/// Some token of the sequence is substituted this round.
pub open spec fn any_expands(m: Map<Seq<u8>, Seq<Seq<u8>>>, toks: Seq<Seq<u8>>) -> bool {
    exists|i: int| 0 <= i < toks.len() && expands(m, #[trigger] toks[i])
}

/// The token sequence after `j` substitution rounds.
pub open spec fn passes(m: Map<Seq<u8>, Seq<Seq<u8>>>, toks: Seq<Seq<u8>>, j: nat) -> Seq<
    Seq<u8>,
>
    decreases j,
{
    if j == 0 {
        toks
    } else {
        pass_seq(m, passes(m, toks, (j - 1) as nat))
    }
}

/// Fully expanded: every token is a reserved word or a numeric literal
/// that names no macro.
pub open spec fn all_base(m: Map<Seq<u8>, Seq<Seq<u8>>>, toks: Seq<Seq<u8>>) -> bool {
    forall|i: int|
        0 <= i < toks.len() ==> is_reserved(#[trigger] toks[i]) || (!m.contains_key(toks[i])
            && is_number(toks[i]))
}

/// Every token of the sequence resolves within `k` rounds.
pub open spec fn seq_resolves(m: Map<Seq<u8>, Seq<Seq<u8>>>, toks: Seq<Seq<u8>>, k: nat) -> bool {
    forall|i: int| 0 <= i < toks.len() ==> token_resolves(m, #[trigger] toks[i], k)
}

/// A round spends one unit of every token's resolution budget; junk
/// tokens, which resolve under no budget, are dropped, so the whole output
/// resolves one round sooner.
proof fn lemma_pass_spends(m: Map<Seq<u8>, Seq<Seq<u8>>>, toks: Seq<Seq<u8>>, k: nat)
    requires
        seq_resolves(m, toks, k),
    ensures
        seq_resolves(m, pass_seq(m, toks), (k - 1) as nat),
    decreases toks.len(),
{
    if toks.len() > 0 {
        assert(seq_resolves(m, toks.drop_last(), k)) by {
            assert(forall|i: int|
                0 <= i < toks.len() - 1 ==> toks.drop_last()[i] == #[trigger] toks[i]);
        }
        lemma_pass_spends(m, toks.drop_last(), k);
        let t = toks.last();
        let out = pass_seq(m, toks.drop_last()) + expand_token(m, t);
        assert(token_resolves(m, t, k));
        assert forall|i: int| 0 <= i < out.len() implies token_resolves(
            m,
            #[trigger] out[i],
            (k - 1) as nat,
        ) by {
            if i >= pass_seq(m, toks.drop_last()).len() {
                let b = i - pass_seq(m, toks.drop_last()).len();
                assert(out[i] == expand_token(m, t)[b]);
                if is_reserved(t) {
                } else if m.contains_key(t) {
                    assert(token_resolves(m, m[t][b], (k - 1) as nat));
                } else {
                    lemma_resolves_mono(m, t, 0, (k - 1) as nat);
                }
            }
        }
    }
}

/// Under a fully validated table, one round leaves every token within the
/// table's resolution bound, whatever the input was: junk is dropped and
/// macro bodies inherit their name's budget.
proof fn lemma_first_pass(m: Map<Seq<u8>, Seq<Seq<u8>>>, toks: Seq<Seq<u8>>, b: nat)
    requires
        forall|t: Seq<u8>| #[trigger] m.contains_key(t) ==> token_resolves(m, t, b),
    ensures
        seq_resolves(m, pass_seq(m, toks), (b - 1) as nat),
    decreases toks.len(),
{
    if toks.len() > 0 {
        lemma_first_pass(m, toks.drop_last(), b);
        let t = toks.last();
        let out = pass_seq(m, toks.drop_last()) + expand_token(m, t);
        assert forall|i: int| 0 <= i < out.len() implies token_resolves(
            m,
            #[trigger] out[i],
            (b - 1) as nat,
        ) by {
            if i >= pass_seq(m, toks.drop_last()).len() {
                let j = i - pass_seq(m, toks.drop_last()).len();
                assert(out[i] == expand_token(m, t)[j]);
                if is_reserved(t) {
                } else if m.contains_key(t) {
                    assert(token_resolves(m, t, b));
                    if b > 0 {
                        assert(token_resolves(m, m[t][j], (b - 1) as nat));
                    }
                } else if is_number(t) {
                    lemma_resolves_mono(m, t, 0, (b - 1) as nat);
                }
            }
        }
    }
}

/// With every budget spent, no token is a macro any more.
proof fn lemma_spent_is_fixed(m: Map<Seq<u8>, Seq<Seq<u8>>>, toks: Seq<Seq<u8>>)
    requires
        seq_resolves(m, toks, 0),
    ensures
        !any_expands(m, toks),
{
    assert forall|i: int| 0 <= i < toks.len() implies !expands(m, #[trigger] toks[i]) by {
        assert(token_resolves(m, toks[i], 0));
    }
}

/// A round over a sequence with nothing to substitute leaves only base
/// tokens: reserved words and numeric literals outside the table.
proof fn lemma_pass_base(m: Map<Seq<u8>, Seq<Seq<u8>>>, toks: Seq<Seq<u8>>)
    requires
        !any_expands(m, toks),
    ensures
        all_base(m, pass_seq(m, toks)),
        !any_expands(m, pass_seq(m, toks)),
    decreases toks.len(),
{
    if toks.len() > 0 {
        assert(!any_expands(m, toks.drop_last())) by {
            assert(forall|i: int|
                0 <= i < toks.len() - 1 ==> toks.drop_last()[i] == #[trigger] toks[i]);
        }
        lemma_pass_base(m, toks.drop_last());
        let t = toks.last();
        assert(!expands(m, t));
        let out = pass_seq(m, toks.drop_last()) + expand_token(m, t);
        assert forall|i: int| 0 <= i < out.len() implies is_reserved(#[trigger] out[i]) || (
        !m.contains_key(out[i]) && is_number(out[i])) by {
            if i >= pass_seq(m, toks.drop_last()).len() {
                assert(out[i] == expand_token(m, t)[i - pass_seq(m, toks.drop_last()).len()]);
            }
        }
        assert forall|i: int| 0 <= i < out.len() implies !expands(m, #[trigger] out[i]) by {
            assert(is_reserved(out[i]) || (!m.contains_key(out[i]) && is_number(out[i])));
        }
    }
}

impl View for MacroTable {
    type V = Map<Seq<u8>, Seq<Seq<u8>>>;

    closed spec fn view(&self) -> Map<Seq<u8>, Seq<Seq<u8>>> {
        map_of(self.defs@)
    }
}

impl MacroTable {
    #[verifier::type_invariant]
    spec fn wf(self) -> bool {
        unique_names(self.defs@)
    }

    /// The empty table.
    pub fn new() -> (r: MacroTable)
        ensures
            r@ == Map::<Seq<u8>, Seq<Seq<u8>>>::empty(),
    {
        MacroTable { defs: Vec::new() }
    }

    /// Builds a table from raw entries, lower-casing every name and body
    /// token; a name given twice keeps its later definition.
    pub fn build(entries: &Vec<MacroDef>) -> (r: MacroTable)
        ensures
            r@ == built_map(entries@),
    {
        let mut defs: Vec<MacroDef> = Vec::new();
        let mut i: usize = 0;
        while i < entries.len()
            invariant
                0 <= i <= entries@.len(),
                unique_names(defs@),
                map_of(defs@) == built_map(entries@.take(i as int)),
            decreases entries@.len() - i,
        {
            let lname = to_lower(entries[i].name.as_slice());
            let mut lbody: Vec<Vec<u8>> = Vec::new();
            let mut k: usize = 0;
            while k < entries[i].body.len()
                invariant
                    0 <= i < entries@.len(),
                    0 <= k <= entries@[i as int].body@.len(),
                    lbody@.len() == k,
                    forall|j: int|
                        0 <= j < k ==> (#[trigger] lbody@[j])@ == lower_token(
                            entries@[i as int].body@[j]@,
                        ),
                decreases entries@[i as int].body@.len() - k,
            {
                lbody.push(to_lower(entries[i].body[k].as_slice()));
                k += 1;
            }
            proof {
                let bv = entries@[i as int].body.deep_view();
                assert forall|j: int| 0 <= j < bv.len() implies lbody.deep_view()[j]
                    == lower_body(bv)[j] by {
                    assert(bv[j] =~= entries@[i as int].body@[j]@);
                    assert(lbody.deep_view()[j] =~= lbody@[j]@);
                }
                assert(lbody.deep_view() =~~= lower_body(bv));
            }
            let d = MacroDef { name: lname, body: lbody };
            let ghost defs0 = defs@;
            match find_def(&defs, d.name.as_slice()) {
                Some(j) => {
                    proof {
                        lemma_map_of_set(defs@, j as int, d);
                    }
                    defs.set(j, d);
                    proof {
                        assert(unique_names(defs@)) by {
                            assert(forall|x: int|
                                0 <= x < defs@.len() ==> (#[trigger] defs@[x].name@)
                                    == defs0[x].name@);
                        }
                    }
                },
                None => {
                    defs.push(d);
                    proof {
                        assert(defs@.drop_last() =~= defs0);
                        assert(map_of(defs@) == map_of(defs0).insert(
                            d.name@,
                            d.body.deep_view(),
                        ));
                    }
                },
            }
            proof {
                assert(entries@.take(i + 1 as int).drop_last() =~= entries@.take(i as int));
                assert(map_of(defs@) =~= built_map(entries@.take(i + 1 as int)));
            }
            i += 1;
        }
        proof {
            assert(entries@.take(entries@.len() as int) =~= entries@);
        }
        MacroTable { defs }
    }

    /// Every macro name resolves within the table's own size bound: what a
    /// successful validation certifies, and what expansion needs to promise
    /// termination.
    pub closed spec fn fully_validated(&self) -> bool {
        forall|t: Seq<u8>|
            #[trigger] self@.contains_key(t) ==> token_resolves(
                self@,
                t,
                (self.defs@.len() + 1) as nat,
            )
    }

    /// Validates the table: accepted exactly when every macro name
    /// resolves, and a rejection reports a macro that never resolves,
    /// telling a direct use of an undefined word apart from a cyclic
    /// dependency.
    pub fn validate(&self) -> (r: Result<(), MacroError>)
        ensures
            r is Ok <==> table_valid(self@),
            r is Ok ==> self.fully_validated(),
            r matches Err(e) ==> self@.contains_key(e.name@) && !resolvable(self@, e.name@) && (
            e.fault == MacroFault::Undefined <==> exists|i: int|
                0 <= i < self@[e.name@].len() && dead_token(self@, #[trigger] self@[e.name@][i])),
    {
        proof {
            use_type_invariant(self);
        }
        let n = self.defs.len();
        let mut marked: Vec<bool> = Vec::new();
        while marked.len() < n
            invariant
                marked@.len() <= n,
                forall|i: int| 0 <= i < marked@.len() ==> !(#[trigger] marked@[i]),
            decreases n - marked@.len(),
        {
            marked.push(false);
        }
        proof {
            lemma_count_none(marked@);
        }
        let mut changed = true;
        while changed
            invariant
                unique_names(self.defs@),
                marked@.len() == self.defs@.len(),
                sound(self.defs@, marked@),
                !changed ==> stable(self.defs@, marked@),
            decreases count_true_missing(marked@) + if changed {
                1nat
            } else {
                0nat
            },
        {
            changed = mark_pass(&self.defs, &mut marked);
            proof {
                lemma_count_le(marked@);
            }
        }
        let mut i: usize = 0;
        while i < n
            invariant
                n == self.defs@.len(),
                unique_names(self.defs@),
                marked@.len() == n,
                sound(self.defs@, marked@),
                stable(self.defs@, marked@),
                forall|j: int| 0 <= j < i ==> #[trigger] marked@[j],
            decreases n - i,
        {
            if !marked[i] {
                proof {
                    lemma_map_of_index(self.defs@, i as int);
                    assert forall|k: nat| !token_resolves(self@, self.defs@[i as int].name@, k) by {
                        lemma_stuck(self.defs@, marked@, self.defs@[i as int].name@, k);
                    }
                }
                let name = clone_bytes(&self.defs[i].name);
                let fault = classify_fault(&self.defs, i);
                return Err(MacroError { name, fault });
            }
            i += 1;
        }
        proof {
            lemma_count_le(marked@);
            assert forall|t: Seq<u8>| #[trigger] self@.contains_key(t) implies token_resolves(
                self@,
                t,
                (self.defs@.len() + 1) as nat,
            ) by {
                lemma_map_of_dom(self.defs@, t);
                let j = choose|j: int|
                    0 <= j < self.defs@.len() && (#[trigger] self.defs@[j].name@) == t;
                assert(marked@[j]);
                assert(token_resolves(self@, t, count_true(marked@)));
                lemma_resolves_mono(
                    self@,
                    t,
                    count_true(marked@),
                    (self.defs@.len() + 1) as nat,
                );
            }
            assert forall|t: Seq<u8>| #[trigger] self@.contains_key(t) implies resolvable(
                self@,
                t,
            ) by {
                assert(token_resolves(self@, t, (self.defs@.len() + 1) as nat));
            }
        }
        Ok(())
    }

    /// One substitution round over the whole token sequence; reports
    /// whether any macro was substituted.
    fn expand_pass(&self, toks: &Vec<Vec<u8>>) -> (r: (Vec<Vec<u8>>, bool))
        ensures
            r.0.deep_view() == pass_seq(self@, toks.deep_view()),
            r.1 == any_expands(self@, toks.deep_view()),
    {
        let tv = Ghost(toks.deep_view());
        let mut out: Vec<Vec<u8>> = Vec::new();
        let mut changed = false;
        let mut i: usize = 0;
        while i < toks.len()
            invariant
                0 <= i <= tv@.len(),
                tv@ == toks.deep_view(),
                tv@.len() == toks@.len(),
                out.deep_view() =~~= pass_seq(self@, tv@.take(i as int)),
                changed == any_expands(self@, tv@.take(i as int)),
            decreases tv@.len() - i,
        {
            let t = toks[i].as_slice();
            proof {
                assert(tv@[i as int] == t@);
                assert(tv@.take(i + 1 as int).drop_last() =~= tv@.take(i as int));
            }
            let ghost out0 = out.deep_view();
            match self.expand_once(t) {
                Some(body) => {
                    let ghost outv0 = out@;
                    let mut b: usize = 0;
                    while b < body.len()
                        invariant
                            0 <= b <= body@.len(),
                            body.deep_view() == self@[tv@[i as int]],
                            out@.len() == outv0.len() + b,
                            forall|j: int| 0 <= j < outv0.len() ==> #[trigger] out@[j] == outv0[j],
                            forall|j: int|
                                0 <= j < b ==> (#[trigger] out@[outv0.len() + j])@ == body@[j]@,
                        decreases body@.len() - b,
                    {
                        out.push(clone_bytes(&body[b]));
                        b += 1;
                    }
                    changed = true;
                    proof {
                        let bd = body.deep_view();
                        assert(out0.len() == outv0.len());
                        assert(bd.len() == body@.len());
                        assert forall|x: int| 0 <= x < out@.len() implies out.deep_view()[x] == (
                        out0 + bd)[x] by {
                            lemma_bytes_deep(out@[x]);
                            assert(out.deep_view()[x] == out@[x].deep_view());
                            if x < outv0.len() {
                                lemma_bytes_deep(outv0[x]);
                                assert(out@[x] == outv0[x]);
                                assert(out0[x] == outv0[x].deep_view());
                            } else {
                                lemma_bytes_deep(body@[x - outv0.len()]);
                                let j = x - outv0.len();
                                assert(out@[outv0.len() + j]@ == body@[j]@);
                                assert(out@[x]@ == body@[x - outv0.len()]@);
                                assert(bd[x - outv0.len()] == body@[x - outv0.len()].deep_view());
                                assert(out@[x].deep_view() =~= body@[x - outv0.len()].deep_view());
                            }
                        }
                        assert(out.deep_view() =~~= out0 + bd);
                        assert(expands(self@, tv@[i as int]));
                        assert(any_expands(self@, tv@.take(i + 1 as int))) by {
                            assert(tv@.take(i + 1 as int)[i as int] == tv@[i as int]);
                        }
                        assert(out.deep_view() =~~= pass_seq(self@, tv@.take(i + 1 as int)));
                    }
                },
                None => {
                    let keep = if !matches!(word_of(t), Word::Other) {
                        true
                    } else {
                        is_number_token(t)
                    };
                    if keep {
                        out.push(clone_bytes(&toks[i]));
                    }
                    proof {
                        if keep {
                            assert(out.deep_view() =~~= out0 + seq![tv@[i as int]]);
                        }
                        assert(expand_token(self@, tv@[i as int]) == if keep {
                            seq![tv@[i as int]]
                        } else {
                            Seq::<Seq<u8>>::empty()
                        });
                        assert(out.deep_view() =~~= pass_seq(self@, tv@.take(i + 1 as int)));
                        assert(changed == any_expands(self@, tv@.take(i + 1 as int))) by {
                            assert(!expands(self@, tv@[i as int]));
                            if any_expands(self@, tv@.take(i + 1 as int)) && !any_expands(
                                self@,
                                tv@.take(i as int),
                            ) {
                                let x = choose|x: int|
                                    0 <= x < tv@.take(i + 1 as int).len() && expands(
                                        self@,
                                        #[trigger] tv@.take(i + 1 as int)[x],
                                    );
                                assert(x == i);
                                assert(false);
                            }
                            if any_expands(self@, tv@.take(i as int)) {
                                let x = choose|x: int|
                                    0 <= x < tv@.take(i as int).len() && expands(
                                        self@,
                                        #[trigger] tv@.take(i as int)[x],
                                    );
                                assert(tv@.take(i + 1 as int)[x] == tv@.take(i as int)[x]);
                            }
                        }
                    }
                },
            }
            i += 1;
        }
        proof {
            assert(tv@.take(tv@.len() as int) =~~= tv@);
        }
        (out, changed)
    }

    /// Expands macro names to a fixed point: repeated whole-sequence
    /// rounds, substituting every macro name (reserved words win) and
    /// dropping every token that is neither resolvable nor numeric, until
    /// a round substitutes nothing.  A fully validated table always
    /// reaches the fixed point; failing to reach one within the validated
    /// bound is reported instead of looping forever.
    pub fn expand(&self, raw: &Vec<Vec<u8>>) -> (r: Result<Vec<Vec<u8>>, MacroExpansionDivergence>)
        ensures
            self.fully_validated() ==> r is Ok,
            r matches Ok(out) ==> {
                &&& all_base(self@, out.deep_view())
                &&& !any_expands(self@, out.deep_view())
                &&& exists|j: nat| out.deep_view() == passes(self@, raw.deep_view(), j)
            },
    {
        proof {
            use_type_invariant(self);
        }
        let ghost m = self@;
        let ghost raw0 = raw.deep_view();
        let n = self.defs.len();
        let ghost bound = (n + 1) as nat;
        let first = self.expand_pass(raw);
        let mut cur = first.0;
        let mut changed = first.1;
        let mut fuel: u128 = n as u128 + 1;
        let ghost p: nat = 1;
        proof {
            if self.fully_validated() {
                lemma_first_pass(m, raw0, bound);
            }
            assert(passes(m, raw0, 1) == pass_seq(m, passes(m, raw0, 0)));
            assert(passes(m, raw0, 0) == raw0);
        }
        while changed
            invariant
                m == self@,
                unique_names(self.defs@),
                n == self.defs@.len(),
                bound == (n + 1) as nat,
                fuel <= n as u128 + 1,
                p == n + 2 - fuel,
                cur.deep_view() == passes(m, raw0, p),
                changed == any_expands(m, passes(m, raw0, (p - 1) as nat)),
                self.fully_validated() ==> seq_resolves(m, cur.deep_view(), (bound - p) as nat),
                self.fully_validated() && changed ==> p <= n + 1,
            decreases fuel,
        {
            if fuel == 0 {
                proof {
                    assert(!self.fully_validated());
                }
                return Err(MacroExpansionDivergence);
            }
            let next = self.expand_pass(&cur);
            cur = next.0;
            changed = next.1;
            fuel = fuel - 1;
            proof {
                let p0 = p;
                p = p0 + 1;
                assert(passes(m, raw0, p) == pass_seq(m, passes(m, raw0, p0)));
                if self.fully_validated() {
                    lemma_pass_spends(m, passes(m, raw0, p0), (bound - p0) as nat);
                    if changed {
                        if p0 >= bound {
                            lemma_spent_is_fixed(m, passes(m, raw0, p0));
                            assert(false);
                        }
                    }
                }
            }
        }
        proof {
            lemma_pass_base(m, passes(m, raw0, (p - 1) as nat));
            assert(cur.deep_view() == passes(m, raw0, p));
        }
        Ok(cur)
    }

    /// The macro body that one substitution step gives a token: its body if
    /// the token names a macro and is not a reserved word (reserved words
    /// always win), otherwise nothing.
    pub fn expand_once(&self, t: &[u8]) -> (r: Option<&Vec<Vec<u8>>>)
        ensures
            match r {
                Some(b) => !is_reserved(t@) && self@.contains_key(t@) && b.deep_view() == self@[t@],
                None => is_reserved(t@) || !self@.contains_key(t@),
            },
    {
        proof {
            use_type_invariant(self);
        }
        if !matches!(word_of(t), Word::Other) {
            return None;
        }
        match find_def(&self.defs, t) {
            Some(j) => {
                proof {
                    lemma_map_of_index(self.defs@, j as int);
                }
                Some(&self.defs[j].body)
            },
            None => {
                proof {
                    if self@.contains_key(t@) {
                        lemma_map_of_dom(self.defs@, t@);
                    }
                }
                None
            },
        }
    }
}

} // verus!
