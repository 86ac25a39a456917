//! Connection assembly: the poles of every network, as circuits.
//!
//! Every statement has an input pole (pole 1) and an output pole (pole 2); a
//! constant combinator has a single pole, so both count as pole 1 there. The
//! poles that resolve to one network on one colour form a group, in the
//! order of their statements. A group of two or more poles is a circuit.

use vstd::prelude::*;
use crate::entity::views_of;
use crate::inject::circuits_fit;
use crate::labels::{input_label, input_line, output_label, output_line, pole_label};
use crate::netindex::NetworkIndex;
use crate::refmap::Resolution;
use crate::resolver::{input_names, output_names, resolve, Networks, References};
use crate::resolver_laws::{
    covers, lemma_linked_implies_same_network, mentions, transitively_linked,
};
use crate::types::{Expr, Statement, WireColor};
use crate::wiring::{Circuit, CircuitConnection, CircuitView};

verus! {

/// A pole with the network that it resolves to.
pub struct Endpoint {
    pub network: Seq<char>,
    pub member: CircuitConnection,
}

/// Pole `pole` of statement `idx` as a member of a circuit. On a constant
/// combinator every pole is pole 1.
pub open spec fn member_of(stmt: Statement, idx: usize, pole: usize) -> CircuitConnection {
    CircuitConnection {
        idx,
        conn_point: if stmt.is_constant() {
            1
        } else {
            pole
        },
    }
}

/// The poles of the first `n` statements with their networks in `m`: of
/// every statement the input pole, then the output pole.
pub open spec fn endpoints(stmts: Seq<Statement>, m: Resolution, n: nat) -> Seq<Endpoint>
    decreases n,
{
    if n == 0 {
        Seq::empty()
    } else {
        let idx = (n - 1) as usize;
        endpoints(stmts, m, (n - 1) as nat).push(
            Endpoint { network: m[input_label(idx as nat)], member: member_of(stmts[n - 1], idx, 1) },
        ).push(
            Endpoint {
                network: m[output_label(idx as nat)],
                member: member_of(stmts[n - 1], idx, 2),
            },
        )
    }
}

/// The poles among `eps` that resolve to `network`, in order.
pub open spec fn members_of(eps: Seq<Endpoint>, network: Seq<char>) -> Seq<CircuitConnection>
    decreases eps.len(),
{
    if eps.len() == 0 {
        Seq::empty()
    } else {
        let rest = members_of(eps.drop_last(), network);
        if eps.last().network == network {
            rest.push(eps.last().member)
        } else {
            rest
        }
    }
}

/// The networks of `eps`, each once, in the order in which they first occur.
pub open spec fn networks_met(eps: Seq<Endpoint>) -> Seq<Seq<char>>
    decreases eps.len(),
{
    if eps.len() == 0 {
        Seq::empty()
    } else {
        let rest = networks_met(eps.drop_last());
        if rest.contains(eps.last().network) {
            rest
        } else {
            rest.push(eps.last().network)
        }
    }
}

/// The circuits of `networks`, in order: for every network with two or more
/// poles among `eps`, those poles.
pub open spec fn circuits_from(
    eps: Seq<Endpoint>,
    color: WireColor,
    networks: Seq<Seq<char>>,
) -> Seq<CircuitView>
    decreases networks.len(),
{
    if networks.len() == 0 {
        Seq::empty()
    } else {
        let rest = circuits_from(eps, color, networks.drop_last());
        let members = members_of(eps, networks.last());
        if members.len() > 1 {
            rest.push(CircuitView { color, connections: members })
        } else {
            rest
        }
    }
}

/// The circuits of one colour, in the order in which their networks first
/// occur.
pub open spec fn circuits_of_color(
    stmts: Seq<Statement>,
    m: Resolution,
    color: WireColor,
) -> Seq<CircuitView> {
    let eps = endpoints(stmts, m, stmts.len());
    circuits_from(eps, color, networks_met(eps))
}

/// The circuits of a statement list: the red ones, then the green ones.
pub open spec fn circuits_of(stmts: Seq<Statement>, nets: Networks) -> Seq<CircuitView> {
    circuits_of_color(stmts, nets.red, WireColor::Red) + circuits_of_color(
        stmts,
        nets.green,
        WireColor::Green,
    )
}

proof fn lemma_met_has_members(eps: Seq<Endpoint>, network: Seq<char>)
    ensures
        networks_met(eps).contains(network) <==> members_of(eps, network).len() > 0,
    decreases eps.len(),
{
    if eps.len() > 0 {
        lemma_met_has_members(eps.drop_last(), network);
        let rest = networks_met(eps.drop_last());
        if !rest.contains(eps.last().network) {
            let more = rest.push(eps.last().network);
            assert(more[rest.len() as int] == eps.last().network);
            if rest.contains(network) {
                let at = choose|at: int| 0 <= at < rest.len() && rest[at] == network;
                assert(more[at] == network);
            }
            if more.contains(network) {
                let at = choose|at: int| 0 <= at < more.len() && more[at] == network;
                if at < rest.len() {
                    assert(rest[at] == network);
                }
            }
        }
    }
}

proof fn lemma_met_is_distinct(eps: Seq<Endpoint>)
    ensures
        forall|i: int, j: int|
            0 <= i < j < networks_met(eps).len() ==> networks_met(eps)[i] != networks_met(eps)[j],
    decreases eps.len(),
{
    if eps.len() > 0 {
        lemma_met_is_distinct(eps.drop_last());
        let rest = networks_met(eps.drop_last());
        let met = networks_met(eps);
        assert forall|i: int, j: int| 0 <= i < j < met.len() implies met[i] != met[j] by {
            if j == rest.len() {
                assert(rest[i] == met[i]);
                assert(rest.contains(rest[i]));
            } else {
                assert(rest[i] == met[i] && rest[j] == met[j]);
            }
        }
    }
}

proof fn lemma_members_fit(stmts: Seq<Statement>, m: Resolution, n: nat, network: Seq<char>)
    requires
        n <= stmts.len(),
        stmts.len() <= usize::MAX,
    ensures
        forall|k: int|
            0 <= k < members_of(endpoints(stmts, m, n), network).len() ==> (#[trigger] members_of(
                endpoints(stmts, m, n),
                network,
            )[k]).fits(stmts.len()),
    decreases n,
{
    if n > 0 {
        lemma_members_fit(stmts, m, (n - 1) as nat, network);
        let idx = (n - 1) as usize;
        let base = endpoints(stmts, m, (n - 1) as nat);
        let first = Endpoint {
            network: m[input_label(idx as nat)],
            member: member_of(stmts[n - 1], idx, 1),
        };
        let second = Endpoint {
            network: m[output_label(idx as nat)],
            member: member_of(stmts[n - 1], idx, 2),
        };
        let one = base.push(first);
        let two = one.push(second);
        assert(one.drop_last() =~= base);
        assert(two.drop_last() =~= one);
        assert(first.member.fits(stmts.len()));
        assert(second.member.fits(stmts.len()));
        assert(two == endpoints(stmts, m, n));
        let before = members_of(base, network);
        let middle = members_of(one, network);
        let after = members_of(two, network);
        assert(one.last() == first && two.last() == second);
        assert forall|k: int| 0 <= k < middle.len() implies (#[trigger] middle[k]).fits(
            stmts.len(),
        ) by {
            if k < before.len() {
                assert(middle[k] == before[k]);
            }
        }
        assert forall|k: int| 0 <= k < after.len() implies (#[trigger] after[k]).fits(
            stmts.len(),
        ) by {
            if k < middle.len() {
                assert(after[k] == middle[k]);
            }
        }
    }
}

proof fn lemma_circuits_from_fit(
    stmts: Seq<Statement>,
    m: Resolution,
    color: WireColor,
    networks: Seq<Seq<char>>,
)
    requires
        stmts.len() <= usize::MAX,
    ensures
        circuits_fit(
            circuits_from(endpoints(stmts, m, stmts.len()), color, networks),
            stmts.len(),
        ),
    decreases networks.len(),
{
    if networks.len() > 0 {
        lemma_circuits_from_fit(stmts, m, color, networks.drop_last());
        lemma_members_fit(stmts, m, stmts.len(), networks.last());
    }
}

/// Every member of every circuit is one of the two poles of a statement of
/// the list.
pub proof fn lemma_circuits_fit(stmts: Seq<Statement>, nets: Networks)
    requires
        stmts.len() <= usize::MAX,
    ensures
        circuits_fit(circuits_of(stmts, nets), stmts.len()),
{
    let red = endpoints(stmts, nets.red, stmts.len());
    let green = endpoints(stmts, nets.green, stmts.len());
    lemma_circuits_from_fit(stmts, nets.red, WireColor::Red, networks_met(red));
    lemma_circuits_from_fit(stmts, nets.green, WireColor::Green, networks_met(green));
}

/// The group of a network holds every pole that resolves to it.
proof fn lemma_member_listed(eps: Seq<Endpoint>, p: int)
    requires
        0 <= p < eps.len(),
    ensures
        members_of(eps, eps[p].network).contains(eps[p].member),
    decreases eps.len(),
{
    let network = eps[p].network;
    let rest = members_of(eps.drop_last(), network);
    if p == eps.len() - 1 {
        assert(rest.push(eps[p].member)[rest.len() as int] == eps[p].member);
    } else {
        assert(eps.drop_last()[p] == eps[p]);
        lemma_member_listed(eps.drop_last(), p);
        let at = choose|at: int| 0 <= at < rest.len() && rest[at] == eps[p].member;
        if eps.last().network == network {
            assert(rest.push(eps.last().member)[at] == eps[p].member);
        }
    }
}

/// The group of a network that two poles resolve to has two members or more.
proof fn lemma_two_members(eps: Seq<Endpoint>, p: int, q: int)
    requires
        0 <= p < q < eps.len(),
        eps[p].network == eps[q].network,
    ensures
        members_of(eps, eps[p].network).len() >= 2,
    decreases eps.len(),
{
    let network = eps[p].network;
    assert(eps.drop_last()[p] == eps[p]);
    if q == eps.len() - 1 {
        lemma_member_listed(eps.drop_last(), p);
    } else {
        assert(eps.drop_last()[q] == eps[q]);
        lemma_two_members(eps.drop_last(), p, q);
    }
}

/// Every network of the list with two poles or more has its circuit.
proof fn lemma_circuit_listed(
    eps: Seq<Endpoint>,
    color: WireColor,
    networks: Seq<Seq<char>>,
    k: int,
)
    requires
        0 <= k < networks.len(),
        members_of(eps, networks[k]).len() > 1,
    ensures
        circuits_from(eps, color, networks).contains(
            CircuitView { color, connections: members_of(eps, networks[k]) },
        ),
    decreases networks.len(),
{
    let rest = circuits_from(eps, color, networks.drop_last());
    let wanted = CircuitView { color, connections: members_of(eps, networks[k]) };
    if k == networks.len() - 1 {
        assert(rest.push(wanted)[rest.len() as int] == wanted);
    } else {
        assert(networks.drop_last()[k] == networks[k]);
        lemma_circuit_listed(eps, color, networks.drop_last(), k);
        let at = choose|at: int| 0 <= at < rest.len() && rest[at] == wanted;
        let members = members_of(eps, networks.last());
        if members.len() > 1 {
            assert(rest.push(CircuitView { color, connections: members })[at] == wanted);
        }
    }
}

/// Every circuit is the group of one network of the list, has the colour of
/// the list and has two members or more.
pub proof fn lemma_circuits_are_groups(
    eps: Seq<Endpoint>,
    color: WireColor,
    networks: Seq<Seq<char>>,
    c: int,
)
    requires
        0 <= c < circuits_from(eps, color, networks).len(),
    ensures
        circuits_from(eps, color, networks)[c].color == color,
        circuits_from(eps, color, networks)[c].connections.len() >= 2,
        exists|k: int|
            0 <= k < networks.len() && circuits_from(eps, color, networks)[c].connections
                == members_of(eps, #[trigger] networks[k]),
    decreases networks.len(),
{
    let rest = circuits_from(eps, color, networks.drop_last());
    if c < rest.len() {
        lemma_circuits_are_groups(eps, color, networks.drop_last(), c);
        let k = choose|k: int|
            0 <= k < networks.drop_last().len() && rest[c].connections == members_of(
                eps,
                #[trigger] networks.drop_last()[k],
            );
        assert(networks[k] == networks.drop_last()[k]);
    } else {
        assert(networks[networks.len() - 1] == networks.last());
    }
}

/// The two poles of statement `i` are poles `2 * i` and `2 * i + 1` of the
/// list.
proof fn lemma_endpoint_at(stmts: Seq<Statement>, m: Resolution, n: nat, i: int)
    requires
        0 <= i < n <= usize::MAX,
    ensures
        endpoints(stmts, m, n).len() == 2 * n,
        endpoints(stmts, m, n)[2 * i] == (Endpoint {
            network: m[input_label(i as nat)],
            member: member_of(stmts[i], i as usize, 1),
        }),
        endpoints(stmts, m, n)[2 * i + 1] == (Endpoint {
            network: m[output_label(i as nat)],
            member: member_of(stmts[i], i as usize, 2),
        }),
    decreases n,
{
    lemma_endpoints_len(stmts, m, (n - 1) as nat);
    if i < n - 1 {
        lemma_endpoint_at(stmts, m, (n - 1) as nat, i);
    }
}

proof fn lemma_endpoints_len(stmts: Seq<Statement>, m: Resolution, n: nat)
    ensures
        endpoints(stmts, m, n).len() == 2 * n,
    decreases n,
{
    if n > 0 {
        lemma_endpoints_len(stmts, m, (n - 1) as nat);
    }
}

/// Two different poles whose line identifiers are linked, by wires and
/// names and through any number of other identifiers, are members of one
/// circuit of that colour.
pub proof fn lemma_linked_poles_share_a_circuit(
    stmts: Seq<Statement>,
    color: WireColor,
    i: int,
    pole_i: usize,
    j: int,
    pole_j: usize,
)
    requires
        stmts.len() <= usize::MAX,
        0 <= i < stmts.len(),
        0 <= j < stmts.len(),
        pole_i == 1 || pole_i == 2,
        pole_j == 1 || pole_j == 2,
        i != j || pole_i != pole_j,
        transitively_linked(stmts, color, pole_label(pole_i, i as nat), pole_label(pole_j, j as nat)),
    ensures
        exists|c: int|
            0 <= c < circuits_of_color(stmts, resolve(stmts, color), color).len() && {
                let circuit = #[trigger] circuits_of_color(stmts, resolve(stmts, color), color)[c];
                &&& circuit.connections.contains(member_of(stmts[i], i as usize, pole_i))
                &&& circuit.connections.contains(member_of(stmts[j], j as usize, pole_j))
            },
{
    let m = resolve(stmts, color);
    let eps = endpoints(stmts, m, stmts.len());
    let met = networks_met(eps);
    lemma_linked_implies_same_network(
        stmts,
        color,
        pole_label(pole_i, i as nat),
        pole_label(pole_j, j as nat),
    );
    lemma_endpoint_at(stmts, m, stmts.len(), i);
    lemma_endpoint_at(stmts, m, stmts.len(), j);
    let p = if pole_i == 1 {
        2 * i
    } else {
        2 * i + 1
    };
    let q = if pole_j == 1 {
        2 * j
    } else {
        2 * j + 1
    };
    assert(eps[p].network == m[pole_label(pole_i, i as nat)]);
    assert(eps[q].network == m[pole_label(pole_j, j as nat)]);
    assert(eps[p].member == member_of(stmts[i], i as usize, pole_i));
    assert(eps[q].member == member_of(stmts[j], j as usize, pole_j));
    let network = eps[p].network;
    if p < q {
        lemma_two_members(eps, p, q);
    } else {
        lemma_two_members(eps, q, p);
    }
    lemma_member_listed(eps, p);
    lemma_member_listed(eps, q);
    lemma_met_has_members(eps, network);
    let k = choose|k: int| 0 <= k < met.len() && met[k] == network;
    lemma_circuit_listed(eps, color, met, k);
    let wanted = CircuitView { color, connections: members_of(eps, network) };
    let circuits = circuits_of_color(stmts, m, color);
    let c = choose|c: int| 0 <= c < circuits.len() && circuits[c] == wanted;
    assert(circuits[c].connections.contains(member_of(stmts[i], i as usize, pole_i)));
}

/// Pole `pole` of statement `idx` as a member of a circuit.
fn member(stmt: &Statement, idx: usize, pole: usize) -> (m: CircuitConnection)
    ensures
        m == member_of(*stmt, idx, pole),
{
    match &stmt.expr {
        Expr::Constant(_) => CircuitConnection { idx, conn_point: 1 },
        _ => CircuitConnection { idx, conn_point: pole },
    }
}

struct Groups {
    index: NetworkIndex,
    groups: Vec<Vec<CircuitConnection>>,
    met: Ghost<Seq<Seq<char>>>,
    eps: Ghost<Seq<Endpoint>>,
}

spec fn groups_inv(g: Groups) -> bool {
    let met = g.met@;
    let eps = g.eps@;
    &&& met == networks_met(eps)
    &&& g.groups.len() == met.len()
    &&& forall|k: int| 0 <= k < met.len() ==> (#[trigger] g.groups[k])@ == members_of(eps, met[k])
    &&& forall|s: Seq<char>| #[trigger] g.index@.dom().contains(s) <==> met.contains(s)
    &&& forall|k: int|
        0 <= k < met.len() ==> g.index@.dom().contains(#[trigger] met[k]) && g.index@[met[k]] == k
}

/// Adds one pole to the group of its network; a network that was not met
/// before gets a new group.
fn add_member(g: Groups, network: &String, member: CircuitConnection) -> (next: Groups)
    requires
        groups_inv(g),
    ensures
        groups_inv(next),
        next.eps@ == g.eps@.push(Endpoint { network: network@, member }),
{
    let ghost eps = g.eps@;
    let ghost met = g.met@;
    let ghost e = Endpoint { network: network@, member };
    let ghost more = eps.push(e);
    let Groups { index, groups, met: _, eps: _ } = g;
    let mut groups = groups;
    proof {
        assert(more.drop_last() =~= eps);
        assert(more.last() == e);
        lemma_met_is_distinct(eps);
        lemma_met_has_members(eps, network@);
    }
    match index.get(network) {
        Some(at) => {
            proof {
                let k = choose|k: int| 0 <= k < met.len() && met[k] == network@;
                assert(index@[met[k]] == k);
                assert(at == k);
            }
            groups[at].push(member);
            proof {
                assert forall|k: int| 0 <= k < met.len() implies (#[trigger] groups[k])@
                    == members_of(more, met[k]) by {
                    if k != at {
                        assert(met[k] != met[at as int]);
                    }
                }
            }
            Groups { index, groups, met: Ghost(met), eps: Ghost(more) }
        },
        None => {
            let at = groups.len();
            let index = index.insert(network, at);
            let mut fresh: Vec<CircuitConnection> = Vec::new();
            fresh.push(member);
            groups.push(fresh);
            proof {
                let wider = met.push(network@);
                assert(wider == networks_met(more));
                assert(members_of(eps, network@).len() == 0);
                assert(fresh@ =~= members_of(more, network@));
                assert forall|k: int| 0 <= k < wider.len() implies (#[trigger] groups[k])@
                    == members_of(more, wider[k]) by {
                    if k < met.len() {
                        assert(met.contains(met[k]));
                        assert(wider[k] == met[k]);
                    }
                }
                assert forall|s: Seq<char>| #[trigger] index@.dom().contains(s) <==> wider.contains(
                    s,
                ) by {
                    if met.contains(s) {
                        let k = choose|k: int| 0 <= k < met.len() && met[k] == s;
                        assert(wider[k] == s);
                    }
                    if s == network@ {
                        assert(wider[met.len() as int] == s);
                    }
                    if wider.contains(s) {
                        let k = choose|k: int| 0 <= k < wider.len() && wider[k] == s;
                        if k < met.len() {
                            assert(met[k] == s);
                        }
                    }
                }
                assert forall|k: int| 0 <= k < wider.len() implies index@.dom().contains(
                    #[trigger] wider[k],
                ) && index@[wider[k]] == k by {
                    if k < met.len() {
                        assert(met.contains(met[k]));
                        assert(wider[k] == met[k]);
                    }
                }
            }
            Groups { index, groups, met: Ghost(met.push(network@)), eps: Ghost(more) }
        },
    }
}

/// The circuits of one colour.
fn assemble_color(stmts: &Vec<Statement>, refs: &References, color: WireColor) -> (circuits: Vec<
    Circuit,
>)
    requires
        covers(refs@, stmts@),
    ensures
        views_of(circuits@) == circuits_of_color(stmts@, refs@.of(color), color),
{
    let ghost m = refs@.of(color);
    let mut g = Groups {
        index: NetworkIndex::new(),
        groups: Vec::new(),
        met: Ghost(Seq::empty()),
        eps: Ghost(Seq::empty()),
    };
    let mut idx: usize = 0;
    while idx < stmts.len()
        invariant
            idx <= stmts.len(),
            covers(refs@, stmts@),
            m == refs@.of(color),
            groups_inv(g),
            g.eps@ == endpoints(stmts@, m, idx as nat),
        decreases stmts.len() - idx,
    {
        let stmt = &stmts[idx];
        let input = input_line(idx);
        let output = output_line(idx);
        proof {
            let i = idx as int;
            assert(input_names(stmts@[i], i as nat, color)[0] == input@);
            assert(input_names(stmts@[i], i as nat, color).contains(input@));
            assert(mentions(stmts@[i], i as nat, color, input@));
            assert(output_names(stmts@[i], i as nat)[0] == output@);
            assert(output_names(stmts@[i], i as nat).contains(output@));
            assert(mentions(stmts@[i], i as nat, color, output@));
        }
        let input_network = refs.canonical(&input, color).unwrap();
        let output_network = refs.canonical(&output, color).unwrap();
        g = add_member(g, &input_network, member(stmt, idx, 1));
        g = add_member(g, &output_network, member(stmt, idx, 2));
        idx += 1;
    }
    let ghost eps = g.eps@;
    let ghost met = g.met@;
    let mut circuits: Vec<Circuit> = Vec::new();
    let mut k: usize = 0;
    proof {
        assert(met.take(0) =~= Seq::<Seq<char>>::empty());
        assert(views_of(circuits@) =~= Seq::<CircuitView>::empty());
    }
    while k < g.groups.len()
        invariant
            k <= g.groups.len(),
            groups_inv(g),
            eps == g.eps@,
            met == g.met@,
            views_of(circuits@) == circuits_from(eps, color, met.take(k as int)),
        decreases g.groups.len() - k,
    {
        proof {
            assert(met.take(k + 1).drop_last() =~= met.take(k as int));
            assert(met.take(k + 1).last() == met[k as int]);
        }
        if g.groups[k].len() > 1 {
            let ghost before = views_of(circuits@);
            let circuit = Circuit { color, connections: copy_members(&g.groups[k]) };
            circuits.push(circuit);
            proof {
                assert(views_of(circuits@) =~= before.push(circuit@));
            }
        }
        k += 1;
    }
    proof {
        assert(met.take(k as int) =~= met);
    }
    circuits
}

fn copy_members(members: &Vec<CircuitConnection>) -> (copy: Vec<CircuitConnection>)
    ensures
        copy@ == members@,
{
    let mut copy: Vec<CircuitConnection> = Vec::new();
    let mut k: usize = 0;
    while k < members.len()
        invariant
            k <= members.len(),
            copy@ == members@.take(k as int),
        decreases members.len() - k,
    {
        copy.push(members[k]);
        proof {
            assert(copy@ =~= members@.take(k + 1));
        }
        k += 1;
    }
    proof {
        assert(members@.take(k as int) =~= members@);
    }
    copy
}

/// Assembles the circuits of a statement list: for every network that two
/// or more poles resolve to, those poles in the order of their statements.
/// The red circuits come first, then the green ones, each colour in the
/// order in which its networks first occur.
pub fn assemble_circuits(stmts: &Vec<Statement>, refs: &References) -> (circuits: Vec<Circuit>)
    requires
        covers(refs@, stmts@),
    ensures
        views_of(circuits@) == circuits_of(stmts@, refs@),
{
    let mut circuits = assemble_color(stmts, refs, WireColor::Red);
    let ghost red = views_of(circuits@);
    let green = assemble_color(stmts, refs, WireColor::Green);
    let mut k: usize = 0;
    while k < green.len()
        invariant
            k <= green.len(),
            views_of(circuits@) == red + views_of(green@).take(k as int),
        decreases green.len() - k,
    {
        let ghost before = views_of(circuits@);
        let circuit = Circuit { color: green[k].color, connections: copy_members(&green[k].connections) };
        circuits.push(circuit);
        proof {
            assert(circuit@ == green[k as int]@);
            assert(views_of(circuits@) =~= before.push(circuit@));
            assert(views_of(green@).take(k + 1) =~= views_of(green@).take(k as int).push(
                green[k as int]@,
            ));
            assert(views_of(circuits@) =~= red + views_of(green@).take(k + 1));
        }
        k += 1;
    }
    proof {
        assert(views_of(green@).take(k as int) =~= views_of(green@));
    }
    circuits
}

} // verus!
