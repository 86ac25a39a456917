//! What holds of every resolution: which identifiers it knows, that it is
//! flat, and that two identifiers have the same network exactly when wires
//! and names link them.

use vstd::prelude::*;
use crate::labels::{input_label, output_label};
use crate::refmap::{assign, Resolution};
use crate::resolver::{
    bind_all, first_known, input_names, output_names, resolve, resolve_both, resolve_prefix,
    resolve_statement, Networks,
};
use crate::types::{Statement, WireColor};

verus! {

/// Whether `t` is its own network in `m`.
pub open spec fn is_root(m: Resolution, t: Seq<char>) -> bool {
    m.dom().contains(t) && m[t] == t
}

/// Whether one lookup reaches the canonical identifier: every network of `m`
/// is an identifier of `m` that is its own network.
pub open spec fn is_flat(m: Resolution) -> bool {
    forall|k: Seq<char>| #[trigger] m.dom().contains(k) ==> is_root(m, m[k])
}

/// Whether statement `i` mentions `x` on `color`, as an identifier of its
/// output pole or of its input pole.
pub open spec fn mentions(stmt: Statement, i: nat, color: WireColor, x: Seq<char>) -> bool {
    output_names(stmt, i).contains(x) || input_names(stmt, i, color).contains(x)
}

/// Whether one of the first `n` statements mentions `x` on `color`.
pub open spec fn mentioned(stmts: Seq<Statement>, color: WireColor, n: nat, x: Seq<char>) -> bool {
    exists|i: int| 0 <= i < n && i < stmts.len() && #[trigger] mentions(stmts[i], i as nat, color, x)
}

/// Whether `a` and `b` identify the same pole of one statement on `color`:
/// a line identifier and a name of its output pole, two names of one
/// output pole, a line identifier and the location of a wire, or the
/// locations of two wires of one statement.
pub open spec fn names_linked(
    stmts: Seq<Statement>,
    color: WireColor,
    a: Seq<char>,
    b: Seq<char>,
) -> bool {
    exists|i: int|
        0 <= i < stmts.len() && #[trigger] same_pole(stmts[i], i as nat, color, a, b)
}

/// Whether `a` and `b` both identify the output pole of statement `i`, or
/// both its input pole on `color`.
pub open spec fn same_pole(
    stmt: Statement,
    i: nat,
    color: WireColor,
    a: Seq<char>,
    b: Seq<char>,
) -> bool {
    ||| output_names(stmt, i).contains(a) && output_names(stmt, i).contains(b)
    ||| input_names(stmt, i, color).contains(a) && input_names(stmt, i, color).contains(b)
}

// ---------------------------------------------------------------------------
// One binding.
// ---------------------------------------------------------------------------

proof fn lemma_assign_dom(m: Resolution, n: Seq<char>, t: Seq<char>)
    ensures
        forall|k: Seq<char>| #[trigger]
            assign(m, n, t).dom().contains(k) <==> (m.dom().contains(k) || k == n),
        assign(m, n, t).dom().contains(n),
        assign(m, n, t)[n] == t,
        forall|k: Seq<char>| #[trigger]
            m.dom().contains(k) ==> assign(m, n, t)[k] == t || assign(m, n, t)[k] == m[k],
        forall|k: Seq<char>| #[trigger] m.dom().contains(k) && m[k] == t ==> assign(m, n, t)[k] == t,
{
}

proof fn lemma_assign_keeps_equal(m: Resolution, n: Seq<char>, t: Seq<char>)
    ensures
        forall|a: Seq<char>, b: Seq<char>|
            #![trigger m.dom().contains(a), m.dom().contains(b)]
            m.dom().contains(a) && m.dom().contains(b) && m[a] == m[b] ==> assign(m, n, t)[a]
                == assign(m, n, t)[b],
{
}

/// Every network of `m` other than `t` is its own network.
spec fn flat_but(m: Resolution, t: Seq<char>) -> bool {
    forall|k: Seq<char>| #[trigger] m.dom().contains(k) ==> m[k] == t || is_root(m, m[k])
}

/// Binding `x` to `t` makes `t` its own network.
spec fn promotes(m: Resolution, t: Seq<char>, x: Seq<char>) -> bool {
    x == t || (m.dom().contains(x) && m.dom().contains(t) && m[x] == m[t])
}

proof fn lemma_assign_flat_but(m: Resolution, n: Seq<char>, t: Seq<char>)
    requires
        flat_but(m, t),
    ensures
        flat_but(assign(m, n, t), t),
        is_root(m, t) ==> is_root(assign(m, n, t), t),
        promotes(m, t, n) ==> is_root(assign(m, n, t), t),
        forall|x: Seq<char>|
            promotes(m, t, x) ==> is_root(assign(m, n, t), t) || #[trigger] promotes(
                assign(m, n, t),
                t,
                x,
            ),
{
    let new = assign(m, n, t);
    assert forall|k: Seq<char>| #[trigger] new.dom().contains(k) implies new[k] == t || is_root(
        new,
        new[k],
    ) by {
        if new[k] != t {
            assert(m.dom().contains(k));
            assert(new[k] == m[k]);
            let v = m[k];
            assert(is_root(m, v));
            assert(m.dom().contains(v));
            if m.dom().contains(n) {
                assert(m[k] != m[n]);
                assert(v != n);
            }
            assert(new[v] == v);
        }
    }
}

// ---------------------------------------------------------------------------
// Binding all identifiers of a pole.
// ---------------------------------------------------------------------------

proof fn lemma_bind_all_step(m: Resolution, names: Seq<Seq<char>>, t: Seq<char>, k: int)
    requires
        0 <= k < names.len(),
    ensures
        bind_all(m, names.take(k + 1), t) == assign(bind_all(m, names.take(k), t), names[k], t),
        bind_all(m, names.take(0), t) == m,
        bind_all(m, names.take(names.len() as int), t) == bind_all(m, names, t),
{
    assert(names.take(k + 1).drop_last() =~= names.take(k));
    assert(names.take(names.len() as int) =~= names);
}

proof fn lemma_bind_all_basics(m: Resolution, names: Seq<Seq<char>>, t: Seq<char>)
    ensures
        forall|k: Seq<char>| #[trigger]
            bind_all(m, names, t).dom().contains(k) <==> (m.dom().contains(k) || names.contains(k)),
        forall|j: int| 0 <= j < names.len() ==> bind_all(m, names, t)[#[trigger] names[j]] == t,
        forall|k: Seq<char>| #[trigger]
            m.dom().contains(k) ==> bind_all(m, names, t)[k] == t || bind_all(m, names, t)[k]
                == m[k],
        forall|k: Seq<char>| #[trigger]
            m.dom().contains(k) && m[k] == t ==> bind_all(m, names, t)[k] == t,
        forall|a: Seq<char>, b: Seq<char>|
            #![trigger m.dom().contains(a), m.dom().contains(b)]
            m.dom().contains(a) && m.dom().contains(b) && m[a] == m[b] ==> bind_all(m, names, t)[a]
                == bind_all(m, names, t)[b],
    decreases names.len(),
{
    if names.len() > 0 {
        let before = bind_all(m, names.drop_last(), t);
        lemma_bind_all_basics(m, names.drop_last(), t);
        lemma_assign_dom(before, names.last(), t);
        lemma_assign_keeps_equal(before, names.last(), t);
        let after = bind_all(m, names, t);
        assert forall|k: Seq<char>| #[trigger]
            after.dom().contains(k) <==> (m.dom().contains(k) || names.contains(k)) by {
            if names.contains(k) {
                let j = choose|j: int| 0 <= j < names.len() && names[j] == k;
                if j < names.len() - 1 {
                    assert(names.drop_last()[j] == k);
                }
            }
            if names.drop_last().contains(k) {
                let j = choose|j: int| 0 <= j < names.drop_last().len() && names.drop_last()[j] == k;
                assert(names[j] == k);
            }
            assert(names.last() == names[names.len() - 1]);
        }
        assert forall|j: int| 0 <= j < names.len() implies after[#[trigger] names[j]] == t by {
            if j < names.len() - 1 {
                assert(names.drop_last()[j] == names[j]);
                assert(before.dom().contains(names[j]));
            }
        }
        assert forall|a: Seq<char>, b: Seq<char>|
            #![trigger m.dom().contains(a), m.dom().contains(b)]
            m.dom().contains(a) && m.dom().contains(b) && m[a] == m[b] implies after[a]
                == after[b] by {
            assert(before.dom().contains(a) && before.dom().contains(b));
        }
    }
}

/// Binding the identifiers of a pole to `t` leaves a flat resolution, if
/// the resolution was flat but for `t` and one of the identifiers makes `t`
/// its own network.
proof fn lemma_bind_all_flat(m: Resolution, names: Seq<Seq<char>>, t: Seq<char>, k: int)
    requires
        flat_but(m, t),
        is_root(m, t) || exists|j: int| 0 <= j < names.len() && promotes(m, t, #[trigger] names[j]),
        0 <= k <= names.len(),
    ensures
        flat_but(bind_all(m, names.take(k), t), t),
        is_root(bind_all(m, names.take(k), t), t) || exists|j: int|
            k <= j < names.len() && promotes(bind_all(m, names.take(k), t), t, #[trigger] names[j]),
    decreases k,
{
    if k == 0 {
        assert(names.take(0) =~= Seq::<Seq<char>>::empty());
    } else {
        lemma_bind_all_flat(m, names, t, k - 1);
        lemma_bind_all_step(m, names, t, k - 1);
        let before = bind_all(m, names.take(k - 1), t);
        lemma_assign_flat_but(before, names[k - 1], t);
        let after = bind_all(m, names.take(k), t);
        if !is_root(before, t) {
            let j = choose|j: int|
                k - 1 <= j < names.len() && promotes(before, t, #[trigger] names[j]);
            if j == k - 1 {
                assert(is_root(after, t));
            } else {
                assert(is_root(after, t) || promotes(after, t, names[j]));
            }
        }
    }
}

proof fn lemma_bound_is_flat(m: Resolution, names: Seq<Seq<char>>, t: Seq<char>)
    requires
        flat_but(m, t),
        is_root(m, t) || exists|j: int| 0 <= j < names.len() && promotes(m, t, #[trigger] names[j]),
    ensures
        is_flat(bind_all(m, names, t)),
        is_root(bind_all(m, names, t), t),
{
    lemma_bind_all_flat(m, names, t, names.len() as int);
    assert(names.take(names.len() as int) =~= names);
}

/// What `first_known` returns: the network of one of the names, which is the
/// first that is known, or the fallback where none is known.
proof fn lemma_first_known_cases(m: Resolution, names: Seq<Seq<char>>, fallback: Seq<char>)
    ensures
        ({
            ||| (first_known(m, names, fallback) == fallback && forall|j: int|
                0 <= j < names.len() ==> !m.dom().contains(#[trigger] names[j]))
            ||| exists|j: int|
                0 <= j < names.len() && m.dom().contains(#[trigger] names[j]) && first_known(
                    m,
                    names,
                    fallback,
                ) == m[names[j]]
        }),
    decreases names.len(),
{
    if names.len() > 0 && !m.dom().contains(names[0]) {
        let rest = names.drop_first();
        lemma_first_known_cases(m, rest, fallback);
        if first_known(m, rest, fallback) == fallback && forall|j: int|
            0 <= j < rest.len() ==> !m.dom().contains(#[trigger] rest[j]) {
            assert forall|j: int| 0 <= j < names.len() implies !m.dom().contains(
                #[trigger] names[j],
            ) by {
                if j > 0 {
                    assert(rest[j - 1] == names[j]);
                }
            }
        } else {
            let j = choose|j: int|
                0 <= j < rest.len() && m.dom().contains(#[trigger] rest[j]) && first_known(
                    m,
                    rest,
                    fallback,
                ) == m[rest[j]];
            assert(names[j + 1] == rest[j]);
        }
    } else if names.len() > 0 {
        assert(m.dom().contains(names[0]));
    }
}

// ---------------------------------------------------------------------------
// Flatness.
// ---------------------------------------------------------------------------

proof fn lemma_statement_keeps_flat(m: Resolution, stmt: Statement, idx: nat, color: WireColor)
    requires
        is_flat(m),
    ensures
        is_flat(resolve_statement(m, stmt, idx, color)),
{
    let outputs = output_names(stmt, idx);
    let inputs = input_names(stmt, idx, color);
    let lt = first_known(m, outputs, output_label(idx));
    let ut = first_known(m, inputs, input_label(idx));
    assert(outputs[0] == output_label(idx));
    assert(inputs[0] == input_label(idx));
    lemma_first_known_cases(m, outputs, output_label(idx));
    lemma_first_known_cases(m, inputs, input_label(idx));
    assert(is_root(m, lt) || promotes(m, lt, outputs[0]));
    lemma_bound_is_flat(m, outputs, lt);
    let m1 = bind_all(m, outputs, lt);
    lemma_bind_all_basics(m, outputs, lt);
    if ut == input_label(idx) && forall|j: int|
        0 <= j < inputs.len() ==> !m.dom().contains(#[trigger] inputs[j]) {
        assert(promotes(m1, ut, inputs[0]));
    } else {
        let j = choose|j: int|
            0 <= j < inputs.len() && m.dom().contains(#[trigger] inputs[j]) && ut == m[inputs[j]];
        assert(is_root(m, ut));
        assert(m.dom().contains(ut) && m.dom().contains(inputs[j]));
        assert(m1[inputs[j]] == m1[ut]);
        assert(m1.dom().contains(inputs[j]));
        assert(m1.dom().contains(ut));
        assert(promotes(m1, ut, inputs[j]));
    }
    lemma_bound_is_flat(m1, inputs, ut);
}

/// Flatness: in the resolution of any statement list, the network of every
/// identifier is an identifier that is its own network. No lookup has to be
/// followed by a second one.
pub proof fn lemma_resolution_is_flat(stmts: Seq<Statement>, color: WireColor)
    ensures
        is_flat(resolve(stmts, color)),
{
    lemma_prefix_is_flat(stmts, color, stmts.len());
}

proof fn lemma_prefix_is_flat(stmts: Seq<Statement>, color: WireColor, n: nat)
    requires
        n <= stmts.len(),
    ensures
        is_flat(resolve_prefix(stmts, color, n)),
    decreases n,
{
    if n > 0 {
        lemma_prefix_is_flat(stmts, color, (n - 1) as nat);
        lemma_statement_keeps_flat(
            resolve_prefix(stmts, color, (n - 1) as nat),
            stmts[n - 1],
            (n - 1) as nat,
            color,
        );
    }
}

// ---------------------------------------------------------------------------
// The identifiers that a resolution knows.
// ---------------------------------------------------------------------------

proof fn lemma_statement_domain(m: Resolution, stmt: Statement, idx: nat, color: WireColor)
    ensures
        forall|x: Seq<char>| #[trigger]
            resolve_statement(m, stmt, idx, color).dom().contains(x) <==> (m.dom().contains(x)
                || mentions(stmt, idx, color, x)),
{
    let outputs = output_names(stmt, idx);
    let inputs = input_names(stmt, idx, color);
    let lt = first_known(m, outputs, output_label(idx));
    let ut = first_known(m, inputs, input_label(idx));
    lemma_bind_all_basics(m, outputs, lt);
    lemma_bind_all_basics(bind_all(m, outputs, lt), inputs, ut);
}

/// A resolution knows exactly the identifiers that the statements mention
/// on its colour: the two line identifiers of every statement, the names of
/// the output poles and the locations of the wires of that colour.
pub proof fn lemma_resolution_domain(stmts: Seq<Statement>, color: WireColor)
    ensures
        forall|x: Seq<char>| #[trigger]
            resolve(stmts, color).dom().contains(x) <==> mentioned(stmts, color, stmts.len(), x),
{
    lemma_prefix_domain(stmts, color, stmts.len());
}

proof fn lemma_prefix_domain(stmts: Seq<Statement>, color: WireColor, n: nat)
    requires
        n <= stmts.len(),
    ensures
        forall|x: Seq<char>| #[trigger]
            resolve_prefix(stmts, color, n).dom().contains(x) <==> mentioned(stmts, color, n, x),
    decreases n,
{
    if n > 0 {
        let before = resolve_prefix(stmts, color, (n - 1) as nat);
        let after = resolve_prefix(stmts, color, n);
        lemma_prefix_domain(stmts, color, (n - 1) as nat);
        lemma_statement_domain(before, stmts[n - 1], (n - 1) as nat, color);
        assert forall|x: Seq<char>| #[trigger] after.dom().contains(x) <==> mentioned(
            stmts,
            color,
            n,
            x,
        ) by {
            if mentioned(stmts, color, n, x) {
                let i = choose|i: int|
                    0 <= i < n && i < stmts.len() && #[trigger] mentions(
                        stmts[i],
                        i as nat,
                        color,
                        x,
                    );
                if i < n - 1 {
                    assert(mentioned(stmts, color, (n - 1) as nat, x));
                }
            }
            if before.dom().contains(x) {
                let i = choose|i: int|
                    0 <= i < n - 1 && i < stmts.len() && #[trigger] mentions(
                        stmts[i],
                        i as nat,
                        color,
                        x,
                    );
                assert(mentions(stmts[i], i as nat, color, x));
            }
            if mentions(stmts[n - 1], (n - 1) as nat, color, x) {
                assert(mentioned(stmts, color, n, x));
            }
        }
    }
}

/// Whether `nets` knows every identifier that the statements mention.
pub open spec fn covers(nets: Networks, stmts: Seq<Statement>) -> bool {
    forall|i: int, color: WireColor, x: Seq<char>|
        0 <= i < stmts.len() && #[trigger] mentions(stmts[i], i as nat, color, x) ==> nets.of(
            color,
        ).dom().contains(x)
}

/// The resolution of a statement list knows every identifier that the
/// statements mention: no lookup of the reach check or of the assembly can
/// miss.
pub proof fn lemma_resolution_covers(stmts: Seq<Statement>)
    ensures
        covers(resolve_both(stmts), stmts),
{
    lemma_resolution_domain(stmts, WireColor::Red);
    lemma_resolution_domain(stmts, WireColor::Green);
    assert forall|i: int, color: WireColor, x: Seq<char>|
        0 <= i < stmts.len() && #[trigger] mentions(stmts[i], i as nat, color, x) implies resolve_both(
        stmts,
    ).of(color).dom().contains(x) by {
        assert(mentioned(stmts, color, stmts.len(), x));
    }
}

// ---------------------------------------------------------------------------
// Linked identifiers have the same network.
// ---------------------------------------------------------------------------

proof fn lemma_statement_keeps_equal(m: Resolution, stmt: Statement, idx: nat, color: WireColor)
    ensures
        forall|a: Seq<char>, b: Seq<char>|
            #![trigger m.dom().contains(a), m.dom().contains(b)]
            m.dom().contains(a) && m.dom().contains(b) && m[a] == m[b] ==> resolve_statement(
                m,
                stmt,
                idx,
                color,
            )[a] == resolve_statement(m, stmt, idx, color)[b],
{
    let outputs = output_names(stmt, idx);
    let inputs = input_names(stmt, idx, color);
    let lt = first_known(m, outputs, output_label(idx));
    let ut = first_known(m, inputs, input_label(idx));
    let m1 = bind_all(m, outputs, lt);
    lemma_bind_all_basics(m, outputs, lt);
    lemma_bind_all_basics(m1, inputs, ut);
    assert forall|a: Seq<char>, b: Seq<char>|
        #![trigger m.dom().contains(a), m.dom().contains(b)]
        m.dom().contains(a) && m.dom().contains(b) && m[a] == m[b] implies resolve_statement(
        m,
        stmt,
        idx,
        color,
    )[a] == resolve_statement(m, stmt, idx, color)[b] by {
        assert(m1.dom().contains(a) && m1.dom().contains(b));
        assert(m1[a] == m1[b]);
    }
}

proof fn lemma_statement_joins_pole(
    m: Resolution,
    stmt: Statement,
    idx: nat,
    color: WireColor,
    a: Seq<char>,
    b: Seq<char>,
)
    requires
        same_pole(stmt, idx, color, a, b),
    ensures
        resolve_statement(m, stmt, idx, color)[a] == resolve_statement(m, stmt, idx, color)[b],
{
    let outputs = output_names(stmt, idx);
    let inputs = input_names(stmt, idx, color);
    let lt = first_known(m, outputs, output_label(idx));
    let ut = first_known(m, inputs, input_label(idx));
    let m1 = bind_all(m, outputs, lt);
    lemma_bind_all_basics(m, outputs, lt);
    lemma_bind_all_basics(m1, inputs, ut);
    if outputs.contains(a) && outputs.contains(b) {
        let i = choose|i: int| 0 <= i < outputs.len() && outputs[i] == a;
        let j = choose|j: int| 0 <= j < outputs.len() && outputs[j] == b;
        assert(m1[outputs[i]] == lt && m1[outputs[j]] == lt);
        assert(m1.dom().contains(a) && m1.dom().contains(b));
    } else {
        let i = choose|i: int| 0 <= i < inputs.len() && inputs[i] == a;
        let j = choose|j: int| 0 <= j < inputs.len() && inputs[j] == b;
        assert(bind_all(m1, inputs, ut)[inputs[i]] == ut);
        assert(bind_all(m1, inputs, ut)[inputs[j]] == ut);
    }
}

proof fn lemma_prefix_joins_pole(
    stmts: Seq<Statement>,
    color: WireColor,
    n: nat,
    i: int,
    a: Seq<char>,
    b: Seq<char>,
)
    requires
        0 <= i < n <= stmts.len(),
        same_pole(stmts[i], i as nat, color, a, b),
    ensures
        resolve_prefix(stmts, color, n).dom().contains(a),
        resolve_prefix(stmts, color, n).dom().contains(b),
        resolve_prefix(stmts, color, n)[a] == resolve_prefix(stmts, color, n)[b],
    decreases n,
{
    let before = resolve_prefix(stmts, color, (n - 1) as nat);
    lemma_statement_domain(before, stmts[n - 1], (n - 1) as nat, color);
    if i == n - 1 {
        lemma_statement_joins_pole(before, stmts[i], i as nat, color, a, b);
    } else {
        lemma_prefix_joins_pole(stmts, color, (n - 1) as nat, i, a, b);
        lemma_statement_keeps_equal(before, stmts[n - 1], (n - 1) as nat, color);
    }
}

/// Two identifiers of one pole have the same network, wherever in the
/// statement list that pole stands.
pub proof fn lemma_linked_names_share_network(
    stmts: Seq<Statement>,
    color: WireColor,
    a: Seq<char>,
    b: Seq<char>,
)
    requires
        names_linked(stmts, color, a, b),
    ensures
        resolve(stmts, color).dom().contains(a),
        resolve(stmts, color).dom().contains(b),
        resolve(stmts, color)[a] == resolve(stmts, color)[b],
{
    let i = choose|i: int|
        0 <= i < stmts.len() && #[trigger] same_pole(stmts[i], i as nat, color, a, b);
    lemma_prefix_joins_pole(stmts, color, stmts.len(), i, a, b);
}

/// Whether every identifier of `chain` is linked to the next one.
pub open spec fn is_link_chain(
    stmts: Seq<Statement>,
    color: WireColor,
    chain: Seq<Seq<char>>,
) -> bool {
    chain.len() > 0 && forall|p: int|
        #![trigger chain[p]]
        0 <= p < chain.len() - 1 ==> names_linked(stmts, color, chain[p], chain[p + 1])
}

/// Whether wires and names link `a` to `b` on `color`, directly or through
/// other identifiers.
pub open spec fn transitively_linked(
    stmts: Seq<Statement>,
    color: WireColor,
    a: Seq<char>,
    b: Seq<char>,
) -> bool {
    exists|chain: Seq<Seq<char>>| #[trigger]
        is_link_chain(stmts, color, chain) && chain.first() == a && chain.last() == b
}

proof fn lemma_chain_shares_network(
    stmts: Seq<Statement>,
    color: WireColor,
    chain: Seq<Seq<char>>,
    p: int,
)
    requires
        is_link_chain(stmts, color, chain),
        0 <= p < chain.len(),
    ensures
        resolve(stmts, color)[chain[p]] == resolve(stmts, color)[chain[0]],
        chain.len() > 1 ==> resolve(stmts, color).dom().contains(chain[p]),
    decreases p,
{
    if p > 0 {
        lemma_chain_shares_network(stmts, color, chain, p - 1);
        assert(names_linked(stmts, color, chain[p - 1], chain[p - 1 + 1]));
        lemma_linked_names_share_network(stmts, color, chain[p - 1], chain[p]);
    } else if chain.len() > 1 {
        assert(names_linked(stmts, color, chain[0], chain[0int + 1]));
        lemma_linked_names_share_network(stmts, color, chain[0], chain[1]);
    }
}

/// Equivalence, one way: two identifiers that wires and names link, through
/// any number of other identifiers and in whatever order the statements
/// stand, resolve to the same network.
pub proof fn lemma_linked_implies_same_network(
    stmts: Seq<Statement>,
    color: WireColor,
    a: Seq<char>,
    b: Seq<char>,
)
    requires
        transitively_linked(stmts, color, a, b),
    ensures
        resolve(stmts, color)[a] == resolve(stmts, color)[b],
        a != b ==> resolve(stmts, color).dom().contains(a) && resolve(stmts, color).dom().contains(
            b,
        ),
{
    let chain = choose|chain: Seq<Seq<char>>| #[trigger]
        is_link_chain(stmts, color, chain) && chain.first() == a && chain.last() == b;
    lemma_chain_shares_network(stmts, color, chain, chain.len() - 1);
    lemma_chain_shares_network(stmts, color, chain, 0);
}

// ---------------------------------------------------------------------------
// Identifiers with the same network are linked.
// ---------------------------------------------------------------------------

/// A relation between identifiers.
pub type Relation = spec_fn(Seq<char>, Seq<char>) -> bool;

/// Whether `r` is reflexive, symmetric and transitive.
pub open spec fn is_equivalence(r: Relation) -> bool {
    &&& forall|x: Seq<char>| #[trigger] r(x, x)
    &&& forall|x: Seq<char>, y: Seq<char>| #[trigger] r(x, y) ==> r(y, x)
    &&& forall|x: Seq<char>, y: Seq<char>, z: Seq<char>|
        #![trigger r(x, y), r(y, z)]
        r(x, y) && r(y, z) ==> r(x, z)
}

/// Whether `r` relates every two identifiers of one pole.
pub open spec fn relates_poles(r: Relation, stmts: Seq<Statement>, color: WireColor) -> bool {
    forall|a: Seq<char>, b: Seq<char>| names_linked(stmts, color, a, b) ==> #[trigger] r(a, b)
}

/// Whether `r` relates every two identifiers that have the same network.
spec fn kernel_within(m: Resolution, r: Relation) -> bool {
    forall|a: Seq<char>, b: Seq<char>|
        #![trigger m.dom().contains(a), m.dom().contains(b)]
        m.dom().contains(a) && m.dom().contains(b) && m[a] == m[b] ==> r(a, b)
}

/// Whether `r` relates every identifier of network `t` to `x`.
spec fn class_within(m: Resolution, t: Seq<char>, x: Seq<char>, r: Relation) -> bool {
    forall|a: Seq<char>| #[trigger] m.dom().contains(a) && m[a] == t ==> r(a, x)
}

proof fn lemma_assign_within(m: Resolution, n: Seq<char>, t: Seq<char>, x: Seq<char>, r: Relation)
    requires
        is_equivalence(r),
        kernel_within(m, r),
        class_within(m, t, x, r),
        r(n, x),
    ensures
        kernel_within(assign(m, n, t), r),
        class_within(assign(m, n, t), t, x, r),
{
    let new = assign(m, n, t);
    assert forall|a: Seq<char>| #[trigger] new.dom().contains(a) && new[a] == t implies r(a, x) by {
        if a == n {
        } else if m.dom().contains(n) && m[a] == m[n] {
            assert(m.dom().contains(a) && m.dom().contains(n));
            assert(r(a, n));
        } else {
            assert(m.dom().contains(a) && m[a] == t);
        }
    }
    assert forall|a: Seq<char>, b: Seq<char>|
        #![trigger new.dom().contains(a), new.dom().contains(b)]
        new.dom().contains(a) && new.dom().contains(b) && new[a] == new[b] implies r(a, b) by {
        if new[a] == t {
            assert(r(a, x));
            assert(r(b, x));
            assert(r(x, b));
        } else {
            assert(m.dom().contains(a) && m.dom().contains(b));
            assert(new[a] == m[a] && new[b] == m[b]);
        }
    }
}

proof fn lemma_bind_all_within(
    m: Resolution,
    names: Seq<Seq<char>>,
    t: Seq<char>,
    x: Seq<char>,
    r: Relation,
)
    requires
        is_equivalence(r),
        kernel_within(m, r),
        class_within(m, t, x, r),
        forall|j: int| 0 <= j < names.len() ==> r(#[trigger] names[j], x),
    ensures
        kernel_within(bind_all(m, names, t), r),
        class_within(bind_all(m, names, t), t, x, r),
    decreases names.len(),
{
    if names.len() > 0 {
        let rest = names.drop_last();
        assert forall|j: int| 0 <= j < rest.len() implies r(#[trigger] rest[j], x) by {
            assert(rest[j] == names[j]);
        }
        lemma_bind_all_within(m, rest, t, x, r);
        assert(names.last() == names[names.len() - 1]);
        lemma_assign_within(bind_all(m, rest, t), names.last(), t, x, r);
    }
}

proof fn lemma_labels_differ(idx: nat)
    ensures
        output_label(idx) != input_label(idx),
{
    assert(output_label(idx)[0] == 'L');
    assert(input_label(idx)[0] == 'U');
}

proof fn lemma_statement_within(
    m: Resolution,
    stmt: Statement,
    idx: nat,
    color: WireColor,
    r: Relation,
)
    requires
        is_equivalence(r),
        is_flat(m),
        kernel_within(m, r),
        forall|a: Seq<char>, b: Seq<char>| same_pole(stmt, idx, color, a, b) ==> #[trigger] r(a, b),
    ensures
        kernel_within(resolve_statement(m, stmt, idx, color), r),
{
    let outputs = output_names(stmt, idx);
    let inputs = input_names(stmt, idx, color);
    let lt = first_known(m, outputs, output_label(idx));
    let ut = first_known(m, inputs, input_label(idx));
    let m1 = bind_all(m, outputs, lt);
    assert(outputs[0] == output_label(idx));
    assert(inputs[0] == input_label(idx));
    lemma_labels_differ(idx);
    lemma_first_known_cases(m, outputs, output_label(idx));
    lemma_first_known_cases(m, inputs, input_label(idx));
    assert forall|j: int| 0 <= j < outputs.len() implies r(#[trigger] outputs[j], outputs[0]) by {
        assert(same_pole(stmt, idx, color, outputs[j], outputs[0]));
    }
    assert forall|j: int| 0 <= j < inputs.len() implies r(#[trigger] inputs[j], inputs[0]) by {
        assert(same_pole(stmt, idx, color, inputs[j], inputs[0]));
    }
    let out_fresh = lt == output_label(idx) && forall|j: int|
        0 <= j < outputs.len() ==> !m.dom().contains(#[trigger] outputs[j]);
    let in_fresh = ut == input_label(idx) && forall|j: int|
        0 <= j < inputs.len() ==> !m.dom().contains(#[trigger] inputs[j]);
    let jo = choose|j: int|
        0 <= j < outputs.len() && m.dom().contains(#[trigger] outputs[j]) && lt == m[outputs[j]];
    let ji = choose|j: int|
        0 <= j < inputs.len() && m.dom().contains(#[trigger] inputs[j]) && ut == m[inputs[j]];
    if out_fresh {
        assert(!m.dom().contains(outputs[0]));
    } else {
        assert(is_root(m, m[outputs[jo]]));
    }
    if in_fresh {
        assert(!m.dom().contains(inputs[0]));
    } else {
        assert(is_root(m, m[inputs[ji]]));
    }
    assert forall|a: Seq<char>| #[trigger] m.dom().contains(a) && m[a] == lt implies r(
        a,
        outputs[0],
    ) by {
        assert(is_root(m, m[a]));
        if !out_fresh {
            assert(m.dom().contains(a) && m.dom().contains(outputs[jo]));
            assert(r(a, outputs[jo]));
            assert(r(outputs[jo], outputs[0]));
        }
    }
    lemma_bind_all_within(m, outputs, lt, outputs[0], r);
    lemma_bind_all_basics(m, outputs, lt);
    assert forall|a: Seq<char>| #[trigger] m1.dom().contains(a) && m1[a] == ut implies r(
        a,
        inputs[0],
    ) by {
        if m1[a] == lt {
            assert(r(a, outputs[0]));
            if !out_fresh && !in_fresh {
                assert(m.dom().contains(outputs[jo]) && m.dom().contains(inputs[ji]));
                assert(r(outputs[jo], inputs[ji]));
                assert(r(outputs[jo], outputs[0]));
                assert(r(outputs[0], outputs[jo]));
                assert(r(inputs[ji], inputs[0]));
                assert(r(outputs[0], inputs[ji]));
                assert(r(outputs[0], inputs[0]));
            }
        } else {
            if outputs.contains(a) {
                let j = choose|j: int| 0 <= j < outputs.len() && outputs[j] == a;
                assert(m1[outputs[j]] == lt);
            }
            assert(m.dom().contains(a));
            assert(m1[a] == m[a]);
            assert(is_root(m, m[a]));
            if !in_fresh {
                assert(m.dom().contains(a) && m.dom().contains(inputs[ji]));
                assert(r(a, inputs[ji]));
                assert(r(inputs[ji], inputs[0]));
            }
        }
    }
    lemma_bind_all_within(m1, inputs, ut, inputs[0], r);
}

proof fn lemma_prefix_within(stmts: Seq<Statement>, color: WireColor, n: nat, r: Relation)
    requires
        n <= stmts.len(),
        is_equivalence(r),
        relates_poles(r, stmts, color),
    ensures
        kernel_within(resolve_prefix(stmts, color, n), r),
    decreases n,
{
    if n > 0 {
        lemma_prefix_within(stmts, color, (n - 1) as nat, r);
        lemma_prefix_is_flat(stmts, color, (n - 1) as nat);
        assert forall|a: Seq<char>, b: Seq<char>|
            same_pole(stmts[n - 1], (n - 1) as nat, color, a, b) implies #[trigger] r(a, b) by {
            assert(names_linked(stmts, color, a, b));
        }
        lemma_statement_within(
            resolve_prefix(stmts, color, (n - 1) as nat),
            stmts[n - 1],
            (n - 1) as nat,
            color,
            r,
        );
    }
}

/// Equivalence, the other way, for any relation: an equivalence relation
/// that relates the identifiers of every pole relates every two identifiers
/// that resolve to the same network. So the networks are the finest
/// partition that the wires and names allow.
pub proof fn lemma_same_network_is_related(
    stmts: Seq<Statement>,
    color: WireColor,
    r: Relation,
    a: Seq<char>,
    b: Seq<char>,
)
    requires
        is_equivalence(r),
        relates_poles(r, stmts, color),
        resolve(stmts, color).dom().contains(a),
        resolve(stmts, color).dom().contains(b),
        resolve(stmts, color)[a] == resolve(stmts, color)[b],
    ensures
        r(a, b),
{
    lemma_prefix_within(stmts, color, stmts.len(), r);
}

proof fn lemma_linked_reflexive(stmts: Seq<Statement>, color: WireColor, x: Seq<char>)
    ensures
        transitively_linked(stmts, color, x, x),
{
    let chain = seq![x];
    assert(is_link_chain(stmts, color, chain));
    assert(chain.first() == x && chain.last() == x);
}

proof fn lemma_linked_symmetric(
    stmts: Seq<Statement>,
    color: WireColor,
    x: Seq<char>,
    y: Seq<char>,
)
    requires
        transitively_linked(stmts, color, x, y),
    ensures
        transitively_linked(stmts, color, y, x),
{
    let chain = choose|chain: Seq<Seq<char>>| #[trigger]
        is_link_chain(stmts, color, chain) && chain.first() == x && chain.last() == y;
    let back = chain.reverse();
    assert forall|p: int| 0 <= p < back.len() - 1 implies names_linked(
        stmts,
        color,
        #[trigger] back[p],
        back[p + 1],
    ) by {
        let q = chain.len() - 2 - p;
        assert(back[p] == chain[q + 1]);
        assert(back[p + 1] == chain[q]);
        assert(names_linked(stmts, color, chain[q], chain[q + 1]));
        let i = choose|i: int|
            0 <= i < stmts.len() && #[trigger] same_pole(
                stmts[i],
                i as nat,
                color,
                chain[q],
                chain[q + 1],
            );
        assert(same_pole(stmts[i], i as nat, color, chain[q + 1], chain[q]));
    }
    assert(is_link_chain(stmts, color, back));
    assert(back.first() == y && back.last() == x);
}

proof fn lemma_linked_transitive(
    stmts: Seq<Statement>,
    color: WireColor,
    x: Seq<char>,
    y: Seq<char>,
    z: Seq<char>,
)
    requires
        transitively_linked(stmts, color, x, y),
        transitively_linked(stmts, color, y, z),
    ensures
        transitively_linked(stmts, color, x, z),
{
    let first = choose|chain: Seq<Seq<char>>| #[trigger]
        is_link_chain(stmts, color, chain) && chain.first() == x && chain.last() == y;
    let second = choose|chain: Seq<Seq<char>>| #[trigger]
        is_link_chain(stmts, color, chain) && chain.first() == y && chain.last() == z;
    let chain = first + second.drop_first();
    assert forall|p: int| 0 <= p < chain.len() - 1 implies names_linked(
        stmts,
        color,
        #[trigger] chain[p],
        chain[p + 1],
    ) by {
        if p < first.len() - 1 {
            assert(chain[p] == first[p] && chain[p + 1] == first[p + 1]);
        } else {
            let q = p - (first.len() - 1);
            assert(chain[p] == second[q]);
            assert(chain[p + 1] == second[q + 1]);
        }
    }
    assert(is_link_chain(stmts, color, chain));
    assert(chain.first() == x);
    assert(chain.last() == z);
}

/// Equivalence, the other way: two identifiers that resolve to the same
/// network are linked by wires and names, directly or through other
/// identifiers.
pub proof fn lemma_same_network_implies_linked(
    stmts: Seq<Statement>,
    color: WireColor,
    a: Seq<char>,
    b: Seq<char>,
)
    requires
        resolve(stmts, color).dom().contains(a),
        resolve(stmts, color).dom().contains(b),
        resolve(stmts, color)[a] == resolve(stmts, color)[b],
    ensures
        transitively_linked(stmts, color, a, b),
{
    let r: Relation = |x: Seq<char>, y: Seq<char>| transitively_linked(stmts, color, x, y);
    assert forall|x: Seq<char>| #[trigger] r(x, x) by {
        lemma_linked_reflexive(stmts, color, x);
    }
    assert forall|x: Seq<char>, y: Seq<char>| #[trigger] r(x, y) implies r(y, x) by {
        lemma_linked_symmetric(stmts, color, x, y);
    }
    assert forall|x: Seq<char>, y: Seq<char>, z: Seq<char>|
        #![trigger r(x, y), r(y, z)]
        r(x, y) && r(y, z) implies r(x, z) by {
        lemma_linked_transitive(stmts, color, x, y, z);
    }
    assert forall|x: Seq<char>, y: Seq<char>| names_linked(stmts, color, x, y) implies #[trigger] r(
        x,
        y,
    ) by {
        let chain = seq![x, y];
        assert(is_link_chain(stmts, color, chain));
        assert(chain.first() == x && chain.last() == y);
    }
    lemma_same_network_is_related(stmts, color, r, a, b);
}

/// Equivalence: two identifiers that a resolution knows have the same
/// network exactly when wires and names link them, directly or through
/// other identifiers. Nothing in this depends on the order in which the
/// statements that link them stand.
pub proof fn lemma_networks_are_link_classes(
    stmts: Seq<Statement>,
    color: WireColor,
    a: Seq<char>,
    b: Seq<char>,
)
    requires
        resolve(stmts, color).dom().contains(a),
        resolve(stmts, color).dom().contains(b),
    ensures
        resolve(stmts, color)[a] == resolve(stmts, color)[b] <==> transitively_linked(
            stmts,
            color,
            a,
            b,
        ),
{
    if transitively_linked(stmts, color, a, b) {
        lemma_linked_implies_same_network(stmts, color, a, b);
    }
    if resolve(stmts, color)[a] == resolve(stmts, color)[b] {
        lemma_same_network_implies_linked(stmts, color, a, b);
    }
}

} // verus!
