//! Reference resolution: which identifiers name the same network.
//!
//! Statements are taken in order. The output pole of a statement joins the
//! network of the first of its identifiers that is already known, and so
//! does the input pole; a pole none of whose identifiers is known starts a
//! network named after its own line identifier. Then every identifier of the
//! pole is bound to that network, and a network that one of them belonged to
//! before is merged into it. The two colours are resolved independently.

use vstd::prelude::*;
use crate::labels::{input_label, input_line, output_label, output_line};
use crate::refmap::{assign, ReferenceMap, Resolution};
use crate::resolver_laws::{covers, is_flat, lemma_resolution_covers, lemma_resolution_is_flat};
use crate::types::{locations_of, texts_of, Statement, WireColor};

verus! {

/// The identifiers of the output pole of statement `idx`: its line
/// identifier, then the names that the statement gives it.
pub open spec fn output_names(stmt: Statement, idx: nat) -> Seq<Seq<char>> {
    seq![output_label(idx)] + stmt.alias_names()
}

/// The identifiers of the input pole of statement `idx` on one colour: its
/// line identifier, then the locations of the wires of that colour.
pub open spec fn input_names(stmt: Statement, idx: nat, color: WireColor) -> Seq<Seq<char>> {
    seq![input_label(idx)] + locations_of(stmt.wire_seq(), color)
}

/// The network of the first of `names` that `m` knows; `fallback` where it
/// knows none of them.
pub open spec fn first_known(m: Resolution, names: Seq<Seq<char>>, fallback: Seq<char>) -> Seq<
    char,
>
    decreases names.len(),
{
    if names.len() == 0 {
        fallback
    } else if m.dom().contains(names[0]) {
        m[names[0]]
    } else {
        first_known(m, names.drop_first(), fallback)
    }
}

/// `m` after every one of `names` was bound to `target`, in order.
pub open spec fn bind_all(m: Resolution, names: Seq<Seq<char>>, target: Seq<char>) -> Resolution
    decreases names.len(),
{
    if names.len() == 0 {
        m
    } else {
        assign(bind_all(m, names.drop_last(), target), names.last(), target)
    }
}

/// `m` after statement `idx` was resolved on one colour. Both poles find
/// their network in `m` as it was before the statement; then the identifiers
/// of the output pole are bound, then those of the input pole.
pub open spec fn resolve_statement(
    m: Resolution,
    stmt: Statement,
    idx: nat,
    color: WireColor,
) -> Resolution {
    let outputs = output_names(stmt, idx);
    let inputs = input_names(stmt, idx, color);
    let output_network = first_known(m, outputs, output_label(idx));
    let input_network = first_known(m, inputs, input_label(idx));
    bind_all(bind_all(m, outputs, output_network), inputs, input_network)
}

/// The resolution of the first `n` statements on one colour.
pub open spec fn resolve_prefix(stmts: Seq<Statement>, color: WireColor, n: nat) -> Resolution
    decreases n,
{
    if n == 0 {
        Map::empty()
    } else {
        resolve_statement(
            resolve_prefix(stmts, color, (n - 1) as nat),
            stmts[n - 1],
            (n - 1) as nat,
            color,
        )
    }
}

/// The resolution of a statement list on one colour.
pub open spec fn resolve(stmts: Seq<Statement>, color: WireColor) -> Resolution {
    resolve_prefix(stmts, color, stmts.len())
}

/// The resolutions of the two colours.
pub struct Networks {
    pub red: Resolution,
    pub green: Resolution,
}

impl Networks {
    /// The resolution of one colour.
    pub open spec fn of(self, color: WireColor) -> Resolution {
        match color {
            WireColor::Red => self.red,
            WireColor::Green => self.green,
        }
    }
}

/// The resolutions of a statement list on the two colours.
pub open spec fn resolve_both(stmts: Seq<Statement>) -> Networks {
    Networks { red: resolve(stmts, WireColor::Red), green: resolve(stmts, WireColor::Green) }
}

/// The canonical networks of both colours.
pub struct References {
    pub red: ReferenceMap,
    pub green: ReferenceMap,
}

impl View for References {
    type V = Networks;

    open spec fn view(&self) -> Networks {
        Networks { red: self.red@, green: self.green@ }
    }
}

impl References {
    /// The canonical network of `name` on `color`, if `name` was ever
    /// referenced on that colour.
    pub fn canonical(&self, name: &String, color: WireColor) -> (r: Option<String>)
        ensures
            match r {
                Some(network) => self@.of(color).dom().contains(name@) && network@ == self@.of(
                    color,
                )[name@],
                None => !self@.of(color).dom().contains(name@),
            },
    {
        match color {
            WireColor::Red => self.red.get(name),
            WireColor::Green => self.green.get(name),
        }
    }
}

/// The identifiers of the output pole of statement `idx`.
pub fn output_names_of(stmt: &Statement, idx: usize) -> (names: Vec<String>)
    ensures
        texts_of(names@) == output_names(*stmt, idx as nat),
        names.len() > 0,
{
    let mut names: Vec<String> = Vec::new();
    names.push(output_line(idx));
    proof {
        assert(texts_of(names@) =~= seq![output_label(idx as nat)]);
    }
    match &stmt.out {
        Some(aliases) => {
            let mut k: usize = 0;
            while k < aliases.len()
                invariant
                    k <= aliases.len(),
                    names.len() > 0,
                    texts_of(names@) == seq![output_label(idx as nat)] + texts_of(aliases@).take(
                        k as int,
                    ),
                decreases aliases.len() - k,
            {
                let ghost before = texts_of(names@);
                names.push(aliases[k].clone());
                proof {
                    assert(texts_of(names@) =~= before.push(aliases[k as int]@));
                    assert(texts_of(aliases@).take(k + 1) =~= texts_of(aliases@).take(
                        k as int,
                    ).push(aliases[k as int]@));
                    assert(texts_of(names@) =~= seq![output_label(idx as nat)] + texts_of(
                        aliases@,
                    ).take(k + 1));
                }
                k += 1;
            }
            proof {
                assert(texts_of(aliases@).take(k as int) =~= texts_of(aliases@));
            }
        },
        None => {
            proof {
                assert(texts_of(names@) =~= output_names(*stmt, idx as nat));
            }
        },
    }
    names
}

/// The identifiers of the input pole of statement `idx` on one colour.
pub fn input_names_of(stmt: &Statement, idx: usize, color: WireColor) -> (names: Vec<String>)
    ensures
        texts_of(names@) == input_names(*stmt, idx as nat, color),
        names.len() > 0,
{
    let mut names: Vec<String> = Vec::new();
    names.push(input_line(idx));
    proof {
        assert(texts_of(names@) =~= seq![input_label(idx as nat)]);
    }
    match &stmt.wires {
        Some(wires) => {
            let mut k: usize = 0;
            proof {
                assert(locations_of(wires@.take(0), color) =~= Seq::<Seq<char>>::empty());
            }
            while k < wires.len()
                invariant
                    k <= wires.len(),
                    names.len() > 0,
                    texts_of(names@) == seq![input_label(idx as nat)] + locations_of(
                        wires@.take(k as int),
                        color,
                    ),
                decreases wires.len() - k,
            {
                proof {
                    assert(wires@.take(k + 1).drop_last() =~= wires@.take(k as int));
                }
                if wires[k].color == color {
                    let ghost before = texts_of(names@);
                    names.push(wires[k].loc.clone());
                    proof {
                        assert(texts_of(names@) =~= before.push(wires[k as int].loc@));
                        assert(wires@.take(k + 1).last() == wires[k as int]);
                        assert(texts_of(names@) =~= seq![input_label(idx as nat)] + locations_of(
                            wires@.take(k + 1),
                            color,
                        ));
                    }
                }
                k += 1;
            }
            proof {
                assert(wires@.take(k as int) =~= wires@);
            }
        },
        None => {
            proof {
                assert(texts_of(names@) =~= input_names(*stmt, idx as nat, color));
            }
        },
    }
    names
}

proof fn lemma_first_known_skips(
    m: Resolution,
    names: Seq<Seq<char>>,
    fallback: Seq<char>,
    k: int,
)
    requires
        0 <= k <= names.len(),
        forall|j: int| 0 <= j < k ==> !m.dom().contains(#[trigger] names[j]),
    ensures
        first_known(m, names, fallback) == first_known(m, names.skip(k), fallback),
    decreases k,
{
    if k == 0 {
        assert(names.skip(0) =~= names);
    } else {
        lemma_first_known_skips(m, names, fallback, k - 1);
        let rest = names.skip(k - 1);
        assert(rest[0] == names[k - 1]);
        assert(rest.drop_first() =~= names.skip(k));
    }
}

/// The network of the first of `names` that `map` knows; `fallback` where it
/// knows none of them.
fn first_known_of(map: &ReferenceMap, names: &Vec<String>, fallback: &String) -> (network: String)
    ensures
        network@ == first_known(map@, texts_of(names@), fallback@),
{
    let mut k: usize = 0;
    while k < names.len()
        invariant
            k <= names.len(),
            forall|j: int| 0 <= j < k ==> !map@.dom().contains(#[trigger] texts_of(names@)[j]),
        decreases names.len() - k,
    {
        match map.get(&names[k]) {
            Some(network) => {
                proof {
                    lemma_first_known_skips(map@, texts_of(names@), fallback@, k as int);
                    assert(texts_of(names@).skip(k as int)[0] == names[k as int]@);
                }
                return network;
            },
            None => {},
        }
        k += 1;
    }
    proof {
        lemma_first_known_skips(map@, texts_of(names@), fallback@, k as int);
    }
    fallback.clone()
}

/// Binds every one of `names` to `target`, in order.
fn bind(map: ReferenceMap, names: &Vec<String>, target: &String) -> (bound: ReferenceMap)
    ensures
        bound@ == bind_all(map@, texts_of(names@), target@),
{
    let ghost start = map@;
    let mut map = map;
    let mut k: usize = 0;
    while k < names.len()
        invariant
            k <= names.len(),
            map@ == bind_all(start, texts_of(names@).take(k as int), target@),
        decreases names.len() - k,
    {
        proof {
            assert(texts_of(names@).take(k + 1).drop_last() =~= texts_of(names@).take(k as int));
        }
        map = map.assign(&names[k], target);
        k += 1;
    }
    proof {
        assert(texts_of(names@).take(k as int) =~= texts_of(names@));
    }
    map
}

/// Resolves the references of one colour: for every identifier that the
/// statements mention on that colour, the canonical identifier of its
/// network. The result is flat: every network is an identifier that is its
/// own network.
pub fn resolve_color(stmts: &Vec<Statement>, color: WireColor) -> (map: ReferenceMap)
    ensures
        map@ == resolve(stmts@, color),
        is_flat(map@),
{
    proof {
        lemma_resolution_is_flat(stmts@, color);
    }
    let mut map = ReferenceMap::new();
    let mut idx: usize = 0;
    while idx < stmts.len()
        invariant
            idx <= stmts.len(),
            map@ == resolve_prefix(stmts@, color, idx as nat),
        decreases stmts.len() - idx,
    {
        let outputs = output_names_of(&stmts[idx], idx);
        let inputs = input_names_of(&stmts[idx], idx, color);
        proof {
            assert(texts_of(outputs@)[0] == output_label(idx as nat));
            assert(texts_of(inputs@)[0] == input_label(idx as nat));
        }
        let output_network = first_known_of(&map, &outputs, &outputs[0]);
        let input_network = first_known_of(&map, &inputs, &inputs[0]);
        map = bind(map, &outputs, &output_network);
        map = bind(map, &inputs, &input_network);
        idx += 1;
    }
    map
}

/// Resolves the references of both colours. The result knows every
/// identifier that the statements mention, and it is flat on both colours.
pub fn resolve_references(stmts: &Vec<Statement>) -> (refs: References)
    ensures
        refs@ == resolve_both(stmts@),
        covers(refs@, stmts@),
        is_flat(refs@.red),
        is_flat(refs@.green),
{
    proof {
        lemma_resolution_covers(stmts@);
    }
    References {
        red: resolve_color(stmts, WireColor::Red),
        green: resolve_color(stmts, WireColor::Green),
    }
}

} // verus!
