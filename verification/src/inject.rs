//! Wiring injection: writes the links of the circuits into the units.
//!
//! The members of a circuit are linked as a chain, each member to the next.
//! Every link is written at both of its ends.

use vstd::prelude::*;
use crate::entity::{
    views_of, ConnectionData, ConnectionPointView, Entity, EntityConnectionsView, EntityView,
};
use crate::types::WireColor;
use crate::wiring::{Circuit, CircuitConnection, CircuitView};

verus! {

/// A link: its two ends.
pub type Link = (CircuitConnection, CircuitConnection);

/// The links of a circuit: member `k` to member `k + 1`, for every member
/// but the last.
pub open spec fn chain_links(members: Seq<CircuitConnection>) -> Seq<Link> {
    if members.len() == 0 {
        Seq::empty()
    } else {
        Seq::new((members.len() - 1) as nat, |k: int| (members[k], members[k + 1]))
    }
}

/// What the unit at one end of a link records of the other end: the number
/// of the peer unit and the pole of the peer.
pub open spec fn peer_of(target: CircuitConnection) -> ConnectionData {
    ConnectionData { entity_id: (target.idx + 1) as usize, circuit_id: target.conn_point }
}

/// `point` with `data` appended to its list of colour `color`.
pub open spec fn attach_to_point(
    point: ConnectionPointView,
    color: WireColor,
    data: ConnectionData,
) -> ConnectionPointView {
    match color {
        WireColor::Red => ConnectionPointView { red: point.red.push(data), ..point },
        WireColor::Green => ConnectionPointView { green: point.green.push(data), ..point },
    }
}

/// `entity` with `data` appended to the list of pole `pole` and colour `color`.
pub open spec fn attach_to_entity(
    entity: EntityView,
    pole: usize,
    color: WireColor,
    data: ConnectionData,
) -> EntityView {
    if pole == 1 {
        EntityView {
            connections: EntityConnectionsView {
                first: attach_to_point(entity.connections.first, color, data),
                ..entity.connections
            },
            ..entity
        }
    } else {
        EntityView {
            connections: EntityConnectionsView {
                second: attach_to_point(entity.connections.second, color, data),
                ..entity.connections
            },
            ..entity
        }
    }
}

/// The units after the unit of `source` has recorded `target` as a peer, at
/// the pole of `source` and under `color`.
pub open spec fn with_entry(
    entities: Seq<EntityView>,
    color: WireColor,
    source: CircuitConnection,
    target: CircuitConnection,
) -> Seq<EntityView> {
    if source.idx < entities.len() {
        entities.update(
            source.idx as int,
            attach_to_entity(
                entities[source.idx as int],
                source.conn_point,
                color,
                peer_of(target),
            ),
        )
    } else {
        entities
    }
}

/// The units after a link was written at both of its ends: first at its
/// first end, then at its second.
pub open spec fn with_link(entities: Seq<EntityView>, color: WireColor, link: Link) -> Seq<
    EntityView,
> {
    with_entry(with_entry(entities, color, link.0, link.1), color, link.1, link.0)
}

/// The units after the first `n` of `links` were written, in order.
pub open spec fn with_links(
    entities: Seq<EntityView>,
    color: WireColor,
    links: Seq<Link>,
    n: nat,
) -> Seq<EntityView>
    decreases n,
{
    if n == 0 {
        entities
    } else {
        with_link(with_links(entities, color, links, (n - 1) as nat), color, links[n - 1])
    }
}

/// The units after the links of one circuit were written.
pub open spec fn with_circuit(entities: Seq<EntityView>, circuit: CircuitView) -> Seq<EntityView> {
    let links = chain_links(circuit.connections);
    with_links(entities, circuit.color, links, links.len())
}

/// The units after the links of the first `n` of `circuits` were written.
pub open spec fn with_circuits(
    entities: Seq<EntityView>,
    circuits: Seq<CircuitView>,
    n: nat,
) -> Seq<EntityView>
    decreases n,
{
    if n == 0 {
        entities
    } else {
        with_circuit(with_circuits(entities, circuits, (n - 1) as nat), circuits[n - 1])
    }
}

/// Every one of `circuits` has its members among the poles of `units` statements.
pub open spec fn circuits_fit(circuits: Seq<CircuitView>, units: nat) -> bool {
    forall|k: int| 0 <= k < circuits.len() ==> (#[trigger] circuits[k]).fits(units)
}

/// Whether one of `links` has `a` and `b` as its two ends.
pub open spec fn joins(links: Seq<Link>, a: CircuitConnection, b: CircuitConnection) -> bool {
    exists|k: int| 0 <= k < links.len() && (#[trigger] links[k] == (a, b) || links[k] == (b, a))
}

/// Whether every pole of `path` is joined to the next one by one of `links`.
pub open spec fn is_path(links: Seq<Link>, path: Seq<CircuitConnection>) -> bool {
    path.len() > 0 && forall|p: int|
        #![trigger path[p]]
        0 <= p < path.len() - 1 ==> joins(links, path[p], path[p + 1])
}

/// Whether `links` lead from `a` to `b`: the closure of `joins`.
pub open spec fn connected(links: Seq<Link>, a: CircuitConnection, b: CircuitConnection) -> bool {
    exists|path: Seq<CircuitConnection>| #[trigger]
        is_path(links, path) && path.first() == a && path.last() == b
}

/// A circuit of `n` members is wired with `n - 1` links, and these links
/// lead from every member to every other member.
pub proof fn lemma_chain_connects_members(members: Seq<CircuitConnection>, i: int, j: int)
    requires
        0 <= i < members.len(),
        0 <= j < members.len(),
    ensures
        chain_links(members).len() == members.len() - 1,
        connected(chain_links(members), members[i], members[j]),
{
    let links = chain_links(members);
    if i <= j {
        let path = members.subrange(i, j + 1);
        assert forall|p: int| 0 <= p < path.len() - 1 implies joins(
            links,
            #[trigger] path[p],
            path[p + 1],
        ) by {
            assert(links[i + p] == (path[p], path[p + 1]));
        }
        assert(is_path(links, path));
        assert(path.first() == members[i] && path.last() == members[j]);
    } else {
        let path = Seq::new((i - j + 1) as nat, |p: int| members[i - p]);
        assert forall|p: int| 0 <= p < path.len() - 1 implies joins(
            links,
            #[trigger] path[p],
            path[p + 1],
        ) by {
            assert(links[i - p - 1] == (path[p + 1], path[p]));
        }
        assert(is_path(links, path));
        assert(path.first() == members[i] && path.last() == members[j]);
    }
}

/// The links of a circuit lead to its members and to no other pole: a path
/// along them that has more than one pole runs through members only.
pub proof fn lemma_chain_reaches_members_only(
    members: Seq<CircuitConnection>,
    path: Seq<CircuitConnection>,
)
    requires
        is_path(chain_links(members), path),
        path.len() > 1,
    ensures
        forall|p: int| 0 <= p < path.len() ==> members.contains(#[trigger] path[p]),
{
    let links = chain_links(members);
    assert forall|p: int| 0 <= p < path.len() implies members.contains(#[trigger] path[p]) by {
        let q = if p < path.len() - 1 {
            p
        } else {
            p - 1
        };
        assert(joins(links, path[q], path[q + 1]));
        let k = choose|k: int|
            0 <= k < links.len() && (#[trigger] links[k] == (path[q], path[q + 1]) || links[k] == (
                path[q + 1],
                path[q],
            ));
        assert(links[k] == (members[k], members[k + 1]));
        assert(members.contains(members[k]));
        assert(members.contains(members[k + 1]));
    }
}

/// Writing an entry keeps the number of units.
pub proof fn lemma_with_links_len(
    entities: Seq<EntityView>,
    color: WireColor,
    links: Seq<Link>,
    n: nat,
)
    ensures
        with_links(entities, color, links, n).len() == entities.len(),
    decreases n,
{
    if n > 0 {
        lemma_with_links_len(entities, color, links, (n - 1) as nat);
    }
}

/// Writing circuits keeps the number of units.
pub proof fn lemma_with_circuits_len(entities: Seq<EntityView>, circuits: Seq<CircuitView>, n: nat)
    ensures
        with_circuits(entities, circuits, n).len() == entities.len(),
    decreases n,
{
    if n > 0 {
        lemma_with_circuits_len(entities, circuits, (n - 1) as nat);
        let before = with_circuits(entities, circuits, (n - 1) as nat);
        let links = chain_links(circuits[n - 1].connections);
        lemma_with_links_len(before, circuits[n - 1].color, links, links.len());
    }
}

/// Records `target` as a peer at the unit of `source`: appends the number of
/// the unit of `target` and the pole of `target` to the list that the unit of
/// `source` keeps for the pole of `source` and for `color`.
pub fn add_entry(
    entities: &mut Vec<Entity>,
    color: WireColor,
    source: CircuitConnection,
    target: CircuitConnection,
)
    requires
        source.fits(old(entities).len() as nat),
        target.fits(old(entities).len() as nat),
    ensures
        final(entities).len() == old(entities).len(),
        views_of(final(entities)@) == with_entry(views_of(old(entities)@), color, source, target),
{
    let data = ConnectionData { entity_id: target.idx + 1, circuit_id: target.conn_point };
    if source.conn_point == 1 {
        match color {
            WireColor::Red => entities[source.idx].connections.first.red.push(data),
            WireColor::Green => entities[source.idx].connections.first.green.push(data),
        }
    } else {
        match color {
            WireColor::Red => entities[source.idx].connections.second.red.push(data),
            WireColor::Green => entities[source.idx].connections.second.green.push(data),
        }
    }
    proof {
        assert(views_of(entities@) =~= with_entry(
            views_of(old(entities)@),
            color,
            source,
            target,
        ));
    }
}

/// Writes the links of one circuit: every member is linked to the next one,
/// and every link is written at both of its ends.
pub fn wire_circuit(entities: &mut Vec<Entity>, circuit: &Circuit)
    requires
        circuit@.fits(old(entities).len() as nat),
    ensures
        final(entities).len() == old(entities).len(),
        views_of(final(entities)@) == with_circuit(views_of(old(entities)@), circuit@),
{
    let ghost links = chain_links(circuit@.connections);
    let ghost start = views_of(entities@);
    let members = circuit.connections.len();
    if members == 0 {
        return ;
    }
    let mut k: usize = 0;
    while k < members - 1
        invariant
            k <= members - 1,
            members == circuit.connections.len(),
            links == chain_links(circuit@.connections),
            entities.len() == start.len(),
            circuit@.fits(start.len()),
            views_of(entities@) == with_links(start, circuit.color, links, k as nat),
        decreases circuit.connections.len() - k,
    {
        let first = circuit.connections[k];
        let second = circuit.connections[k + 1];
        assert(circuit@.connections[k as int].fits(start.len()));
        assert(circuit@.connections[k + 1].fits(start.len()));
        add_entry(entities, circuit.color, first, second);
        add_entry(entities, circuit.color, second, first);
        assert(links[k as int] == (first, second));
        k += 1;
    }
}

/// Writes the links of all circuits into the units, circuit by circuit.
pub fn wire_entities(entities: &mut Vec<Entity>, circuits: &Vec<Circuit>)
    requires
        circuits_fit(views_of(circuits@), old(entities).len() as nat),
    ensures
        final(entities).len() == old(entities).len(),
        views_of(final(entities)@) == with_circuits(
            views_of(old(entities)@),
            views_of(circuits@),
            circuits.len() as nat,
        ),
{
    let ghost start = views_of(entities@);
    let mut i: usize = 0;
    while i < circuits.len()
        invariant
            i <= circuits.len(),
            entities.len() == start.len(),
            circuits_fit(views_of(circuits@), start.len()),
            views_of(entities@) == with_circuits(start, views_of(circuits@), i as nat),
        decreases circuits.len() - i,
    {
        assert(views_of(circuits@)[i as int] == circuits[i as int]@);
        assert(views_of(circuits@)[i as int].fits(start.len()));
        proof {
            lemma_with_circuits_len(start, views_of(circuits@), (i + 1) as nat);
        }
        wire_circuit(entities, &circuits[i]);
        i += 1;
    }
}

} // verus!
