//! Reachability: no wire may span more statements than it can reach.
//!
//! Every statement uses the networks of its identifiers. Between two uses of
//! one network that follow each other, a wire has to run from the one
//! statement to the other, and a wire reaches over `REACH` statements at
//! most.

use vstd::prelude::*;
use crate::labels::{input_label, input_line};
use crate::netindex::NetworkIndex;
use crate::resolver::{input_names, output_names, output_names_of, Networks, References};
use crate::resolver_laws::{covers, mentions};
use crate::types::{locations_of, texts_of, Statement, Wire, WireColor};

verus! {

/// The number of statements that a wire can span.
pub const REACH: usize = 5;

/// One use of an identifier: statement `index` touches the network of
/// `name` on `color`.
pub struct Usage {
    pub index: usize,
    pub name: Seq<char>,
    pub color: WireColor,
}

/// A use of every one of `names` on red and on green, name by name.
pub open spec fn both_colors(index: usize, names: Seq<Seq<char>>) -> Seq<Usage>
    decreases names.len(),
{
    if names.len() == 0 {
        Seq::empty()
    } else {
        both_colors(index, names.drop_last()).push(
            Usage { index, name: names.last(), color: WireColor::Red },
        ).push(Usage { index, name: names.last(), color: WireColor::Green })
    }
}

/// A use of the location of every wire, on the colour of the wire.
pub open spec fn wire_usages(index: usize, wires: Seq<Wire>) -> Seq<Usage>
    decreases wires.len(),
{
    if wires.len() == 0 {
        Seq::empty()
    } else {
        wire_usages(index, wires.drop_last()).push(
            Usage { index, name: wires.last().loc@, color: wires.last().color },
        )
    }
}

/// The uses that statement `idx` makes, in the order in which they are
/// checked: the identifiers of the output pole on both colours, the line
/// identifier of the input pole on both colours, then the wires.
pub open spec fn statement_usages(stmt: Statement, idx: usize) -> Seq<Usage> {
    both_colors(idx, output_names(stmt, idx as nat)) + both_colors(
        idx,
        seq![input_label(idx as nat)],
    ) + wire_usages(idx, stmt.wire_seq())
}

/// The uses that the first `n` statements make.
pub open spec fn usages(stmts: Seq<Statement>, n: nat) -> Seq<Usage>
    decreases n,
{
    if n == 0 {
        Seq::empty()
    } else {
        usages(stmts, (n - 1) as nat) + statement_usages(stmts[n - 1], (n - 1) as usize)
    }
}

/// The network that a use touches.
pub open spec fn network_of(nets: Networks, u: Usage) -> Seq<char> {
    nets.of(u.color)[u.name]
}

/// The place in `done` of the last use of `network` on `color`; -1 where
/// there is none.
pub open spec fn last_use(
    nets: Networks,
    done: Seq<Usage>,
    color: WireColor,
    network: Seq<char>,
) -> int
    decreases done.len(),
{
    if done.len() == 0 {
        -1
    } else if done.last().color == color && network_of(nets, done.last()) == network {
        done.len() - 1
    } else {
        last_use(nets, done.drop_last(), color, network)
    }
}

/// The place of the use that comes before use `k` on the same network and
/// colour; -1 where use `k` is the first.
pub open spec fn previous_use(nets: Networks, us: Seq<Usage>, k: int) -> int {
    last_use(nets, us.take(k), us[k].color, network_of(nets, us[k]))
}

/// Whether the wire from the previous use of its network to use `k` would
/// span more than `REACH` statements.
pub open spec fn out_of_reach(nets: Networks, us: Seq<Usage>, k: int) -> bool {
    let p = previous_use(nets, us, k);
    p >= 0 && us[k].index - us[p].index > REACH
}

/// Whether use `k` is the first that is out of reach.
pub open spec fn first_out_of_reach(nets: Networks, us: Seq<Usage>, k: int) -> bool {
    &&& 0 <= k < us.len()
    &&& out_of_reach(nets, us, k)
    &&& forall|j: int| 0 <= j < k ==> !out_of_reach(nets, us, j)
}

/// The first use that is out of reach, where there is one.
pub open spec fn first_violation(nets: Networks, us: Seq<Usage>) -> int {
    choose|k: int| first_out_of_reach(nets, us, k)
}

/// A wire that cannot reach: the identifier that was used, its colour and
/// its network, the statement that uses it and the statement of the previous
/// use of that network.
#[derive(Debug, Clone, PartialEq, Eq)]
pub struct ReachError {
    pub location: String,
    pub color: WireColor,
    pub network: String,
    pub index: usize,
    pub previous: usize,
}

/// [`ReachError`] with every text as a sequence of characters.
pub struct ReachErrorView {
    pub location: Seq<char>,
    pub color: WireColor,
    pub network: Seq<char>,
    pub index: usize,
    pub previous: usize,
}

impl View for ReachError {
    type V = ReachErrorView;

    open spec fn view(&self) -> ReachErrorView {
        ReachErrorView {
            location: self.location@,
            color: self.color,
            network: self.network@,
            index: self.index,
            previous: self.previous,
        }
    }
}

/// What is reported of use `k` when it is out of reach.
pub open spec fn violation(nets: Networks, us: Seq<Usage>, k: int) -> ReachErrorView {
    ReachErrorView {
        location: us[k].name,
        color: us[k].color,
        network: network_of(nets, us[k]),
        index: us[k].index,
        previous: us[previous_use(nets, us, k)].index,
    }
}

proof fn lemma_last_use_found(
    nets: Networks,
    done: Seq<Usage>,
    color: WireColor,
    network: Seq<char>,
)
    ensures
        -1 <= last_use(nets, done, color, network) < done.len(),
        last_use(nets, done, color, network) >= 0 ==> {
            let p = last_use(nets, done, color, network);
            &&& done[p].color == color
            &&& network_of(nets, done[p]) == network
            &&& forall|j: int|
                p < j < done.len() ==> !((#[trigger] done[j]).color == color && network_of(
                    nets,
                    done[j],
                ) == network)
        },
        last_use(nets, done, color, network) < 0 ==> forall|j: int|
            0 <= j < done.len() ==> !((#[trigger] done[j]).color == color && network_of(
                nets,
                done[j],
            ) == network),
    decreases done.len(),
{
    if done.len() > 0 {
        lemma_last_use_found(nets, done.drop_last(), color, network);
        if !(done.last().color == color && network_of(nets, done.last()) == network) {
            let p = last_use(nets, done.drop_last(), color, network);
            assert forall|j: int| p < j < done.len() && 0 <= j implies !((
            #[trigger] done[j]).color == color && network_of(nets, done[j]) == network) by {
                if j < done.len() - 1 {
                    assert(done.drop_last()[j] == done[j]);
                }
            }
            if p >= 0 {
                assert(done.drop_last()[p] == done[p]);
            }
        }
    }
}

proof fn lemma_push_keeps_earlier(nets: Networks, done: Seq<Usage>, u: Usage)
    ensures
        previous_use(nets, done.push(u), done.len() as int) == last_use(
            nets,
            done,
            u.color,
            network_of(nets, u),
        ),
        forall|k: int|
            0 <= k < done.len() ==> #[trigger] out_of_reach(nets, done.push(u), k) == out_of_reach(
                nets,
                done,
                k,
            ),
        forall|k: int|
            0 <= k < done.len() && out_of_reach(nets, done, k) ==> #[trigger] violation(
                nets,
                done.push(u),
                k,
            ) == violation(nets, done, k),
{
    let more = done.push(u);
    assert(more.take(done.len() as int) =~= done);
    assert forall|k: int| 0 <= k < done.len() implies #[trigger] out_of_reach(nets, more, k)
        == out_of_reach(nets, done, k) by {
        assert(more.take(k) =~= done.take(k));
        assert(more[k] == done[k]);
        lemma_last_use_found(nets, done.take(k), done[k].color, network_of(nets, done[k]));
        let p = previous_use(nets, done, k);
        if p >= 0 {
            assert(more[p] == done[p]);
        }
    }
    assert forall|k: int| 0 <= k < done.len() && out_of_reach(nets, done, k) implies #[trigger] violation(
        nets,
        more,
        k,
    ) == violation(nets, done, k) by {
        assert(more.take(k) =~= done.take(k));
        assert(more[k] == done[k]);
        lemma_last_use_found(nets, done.take(k), done[k].color, network_of(nets, done[k]));
        let p = previous_use(nets, done, k);
        if p >= 0 {
            assert(more[p] == done[p]);
        }
    }
}

/// Whether uses `j` and `k` touch the same network on the same colour.
pub open spec fn same_network(nets: Networks, us: Seq<Usage>, j: int, k: int) -> bool {
    us[j].color == us[k].color && network_of(nets, us[j]) == network_of(nets, us[k])
}

/// Whether uses `j` and `k` are consecutive uses of one network: `j` comes
/// before `k`, and no use between them touches that network.
pub open spec fn consecutive_uses(nets: Networks, us: Seq<Usage>, j: int, k: int) -> bool {
    &&& 0 <= j < k < us.len()
    &&& same_network(nets, us, j, k)
    &&& forall|m: int| j < m < k ==> !#[trigger] same_network(nets, us, m, k)
}

/// Whether every two consecutive uses of one network are at most `REACH`
/// statements apart.
pub open spec fn within_reach(nets: Networks, us: Seq<Usage>) -> bool {
    forall|j: int, k: int| #[trigger]
        consecutive_uses(nets, us, j, k) ==> us[k].index - us[j].index <= REACH
}

proof fn lemma_previous_use_is_consecutive(nets: Networks, us: Seq<Usage>, k: int)
    requires
        0 <= k < us.len(),
    ensures
        forall|j: int| #[trigger]
            consecutive_uses(nets, us, j, k) <==> (j >= 0 && previous_use(nets, us, k) == j),
{
    let done = us.take(k);
    let p = previous_use(nets, us, k);
    lemma_last_use_found(nets, done, us[k].color, network_of(nets, us[k]));
    assert forall|j: int| #[trigger]
        consecutive_uses(nets, us, j, k) <==> (j >= 0 && p == j) by {
        if j >= 0 && p == j {
            assert(done[j] == us[j]);
            assert forall|m: int| j < m < k implies !#[trigger] same_network(nets, us, m, k) by {
                assert(done[m] == us[m]);
            }
        }
        if consecutive_uses(nets, us, j, k) {
            assert(done[j] == us[j]);
            if p >= 0 {
                assert(done[p] == us[p]);
                if p < j {
                } else if p > j {
                    assert(same_network(nets, us, p, k));
                }
            }
        }
    }
}

/// Span enforcement: no use is out of reach exactly when every two
/// consecutive uses of one network, on one colour, are at most `REACH`
/// statements apart.
pub proof fn lemma_span_enforcement(nets: Networks, us: Seq<Usage>)
    ensures
        within_reach(nets, us) <==> forall|k: int|
            0 <= k < us.len() ==> !out_of_reach(nets, us, k),
{
    if within_reach(nets, us) {
        assert forall|k: int| 0 <= k < us.len() implies !out_of_reach(nets, us, k) by {
            lemma_previous_use_is_consecutive(nets, us, k);
            let p = previous_use(nets, us, k);
            if p >= 0 {
                assert(consecutive_uses(nets, us, p, k));
            }
        }
    }
    if forall|k: int| 0 <= k < us.len() ==> !out_of_reach(nets, us, k) {
        assert forall|j: int, k: int| #[trigger] consecutive_uses(nets, us, j, k) implies us[k].index
            - us[j].index <= REACH by {
            lemma_previous_use_is_consecutive(nets, us, k);
            assert(!out_of_reach(nets, us, k));
        }
    }
}

/// Whether `numbers` holds, for every network that `done` uses on `color`,
/// the statement of its last use.
spec fn tracks(
    numbers: Map<Seq<char>, usize>,
    nets: Networks,
    done: Seq<Usage>,
    color: WireColor,
) -> bool {
    forall|s: Seq<char>|
        {
            let p = #[trigger] last_use(nets, done, color, s);
            &&& numbers.dom().contains(s) <==> p >= 0
            &&& p >= 0 ==> numbers[s] == done[p].index
        }
}

proof fn lemma_tracks_after_use(
    numbers: Map<Seq<char>, usize>,
    nets: Networks,
    done: Seq<Usage>,
    u: Usage,
    color: WireColor,
)
    requires
        tracks(numbers, nets, done, color),
    ensures
        u.color == color ==> tracks(
            numbers.insert(network_of(nets, u), u.index),
            nets,
            done.push(u),
            color,
        ),
        u.color != color ==> tracks(numbers, nets, done.push(u), color),
{
    let more = done.push(u);
    let after = if u.color == color {
        numbers.insert(network_of(nets, u), u.index)
    } else {
        numbers
    };
    assert(more.drop_last() =~= done);
    assert forall|s: Seq<char>|
        {
            let p = #[trigger] last_use(nets, more, color, s);
            &&& after.dom().contains(s) <==> p >= 0
            &&& p >= 0 ==> after[s] == more[p].index
        } by {
        lemma_last_use_found(nets, done, color, s);
    }
}

/// The state of the check: for every network the statement of its last use,
/// by colour; the first use out of reach, if there was one; and the uses
/// that were checked.
struct Scan {
    red: NetworkIndex,
    green: NetworkIndex,
    failure: Option<ReachError>,
    done: Ghost<Seq<Usage>>,
}

spec fn scan_inv(scan: Scan, nets: Networks, limit: usize) -> bool {
    let done = scan.done@;
    &&& tracks(scan.red@, nets, done, WireColor::Red)
    &&& tracks(scan.green@, nets, done, WireColor::Green)
    &&& forall|k: int| 0 <= k < done.len() ==> (#[trigger] done[k]).index <= limit
    &&& match scan.failure {
        None => forall|k: int| 0 <= k < done.len() ==> !out_of_reach(nets, done, k),
        Some(e) => exists|k: int| #[trigger]
            first_out_of_reach(nets, done, k) && e@ == violation(nets, done, k),
    }
}

/// Checks one use: the statement `idx` touches the network of `name` on
/// `color`.
fn check_use(scan: Scan, refs: &References, idx: usize, name: &String, color: WireColor) -> (next:
    Scan)
    requires
        scan_inv(scan, refs@, idx),
        refs@.of(color).dom().contains(name@),
    ensures
        scan_inv(next, refs@, idx),
        next.done@ == scan.done@.push(Usage { index: idx, name: name@, color }),
{
    let ghost nets = refs@;
    let ghost done = scan.done@;
    let ghost u = Usage { index: idx, name: name@, color };
    let ghost more = done.push(u);
    let network = refs.canonical(name, color).unwrap();
    let Scan { red, green, failure, done: _ } = scan;
    let ghost old_red = red@;
    let ghost old_green = green@;
    let previous = match color {
        WireColor::Red => red.get(&network),
        WireColor::Green => green.get(&network),
    };
    let (red, green) = match color {
        WireColor::Red => (red.insert(&network, idx), green),
        WireColor::Green => (red, green.insert(&network, idx)),
    };
    proof {
        lemma_push_keeps_earlier(nets, done, u);
        lemma_tracks_after_use(old_red, nets, done, u, WireColor::Red);
        lemma_tracks_after_use(old_green, nets, done, u, WireColor::Green);
        lemma_last_use_found(nets, done, color, network@);
    }
    let failure = match failure {
        Some(e) => {
            proof {
                let k = choose|k: int| #[trigger]
                    first_out_of_reach(nets, done, k) && e@ == violation(nets, done, k);
                assert(first_out_of_reach(nets, more, k));
            }
            Some(e)
        },
        None => match previous {
            Some(earlier) => {
                if idx - earlier > REACH {
                    let e = ReachError {
                        location: name.clone(),
                        color,
                        network,
                        index: idx,
                        previous: earlier,
                    };
                    proof {
                        assert(first_out_of_reach(nets, more, done.len() as int));
                    }
                    Some(e)
                } else {
                    None
                }
            },
            None => None,
        },
    };
    Scan { red, green, failure, done: Ghost(more) }
}

/// What the check finds: nothing where every two consecutive uses of one
/// network are within reach, else the first use that is out of reach.
pub open spec fn reach_model(nets: Networks, us: Seq<Usage>) -> Result<(), ReachErrorView> {
    if within_reach(nets, us) {
        Ok(())
    } else {
        Err(violation(nets, us, first_violation(nets, us)))
    }
}

/// Whether `nets` knows `name` on `color`.
spec fn known(nets: Networks, color: WireColor, name: Seq<char>) -> bool {
    nets.of(color).dom().contains(name)
}

/// Checks a use of every one of `names` on red and on green.
fn check_names(scan: Scan, refs: &References, idx: usize, names: &Vec<String>) -> (next: Scan)
    requires
        scan_inv(scan, refs@, idx),
        forall|j: int, color: WireColor|
            0 <= j < names.len() ==> #[trigger] known(refs@, color, names[j]@),
    ensures
        scan_inv(next, refs@, idx),
        next.done@ == scan.done@ + both_colors(idx, texts_of(names@)),
{
    let ghost start = scan.done@;
    let mut scan = scan;
    let mut k: usize = 0;
    proof {
        assert(texts_of(names@).take(0) =~= Seq::<Seq<char>>::empty());
        assert(start + both_colors(idx, Seq::<Seq<char>>::empty()) =~= start);
    }
    while k < names.len()
        invariant
            k <= names.len(),
            scan_inv(scan, refs@, idx),
            scan.done@ == start + both_colors(idx, texts_of(names@).take(k as int)),
            forall|j: int, color: WireColor|
                0 <= j < names.len() ==> #[trigger] known(refs@, color, names[j]@),
        decreases names.len() - k,
    {
        let ghost before = both_colors(idx, texts_of(names@).take(k as int));
        assert(known(refs@, WireColor::Red, names[k as int]@));
        assert(known(refs@, WireColor::Green, names[k as int]@));
        scan = check_use(scan, refs, idx, &names[k], WireColor::Red);
        scan = check_use(scan, refs, idx, &names[k], WireColor::Green);
        proof {
            let texts = texts_of(names@);
            assert(texts.take(k + 1).drop_last() =~= texts.take(k as int));
            assert(texts.take(k + 1).last() == names[k as int]@);
            let red = Usage { index: idx, name: names[k as int]@, color: WireColor::Red };
            let green = Usage { index: idx, name: names[k as int]@, color: WireColor::Green };
            assert(both_colors(idx, texts.take(k + 1)) == before.push(red).push(green));
            assert((start + before).push(red).push(green) =~= start + before.push(red).push(green));
        }
        k += 1;
    }
    proof {
        assert(texts_of(names@).take(k as int) =~= texts_of(names@));
    }
    scan
}

/// Checks a use of the location of every wire, on the colour of the wire.
fn check_wires(scan: Scan, refs: &References, idx: usize, wires: &Vec<Wire>) -> (next: Scan)
    requires
        scan_inv(scan, refs@, idx),
        forall|j: int|
            0 <= j < wires.len() ==> refs@.of((#[trigger] wires[j]).color).dom().contains(
                wires[j].loc@,
            ),
    ensures
        scan_inv(next, refs@, idx),
        next.done@ == scan.done@ + wire_usages(idx, wires@),
{
    let ghost start = scan.done@;
    let mut scan = scan;
    let mut k: usize = 0;
    proof {
        assert(wires@.take(0) =~= Seq::<Wire>::empty());
        assert(start + wire_usages(idx, Seq::<Wire>::empty()) =~= start);
    }
    while k < wires.len()
        invariant
            k <= wires.len(),
            scan_inv(scan, refs@, idx),
            scan.done@ == start + wire_usages(idx, wires@.take(k as int)),
            forall|j: int|
                0 <= j < wires.len() ==> refs@.of((#[trigger] wires[j]).color).dom().contains(
                    wires[j].loc@,
                ),
        decreases wires.len() - k,
    {
        let ghost before = wire_usages(idx, wires@.take(k as int));
        assert(refs@.of(wires[k as int].color).dom().contains(wires[k as int].loc@));
        scan = check_use(scan, refs, idx, &wires[k].loc, wires[k].color);
        proof {
            assert(wires@.take(k + 1).drop_last() =~= wires@.take(k as int));
            assert(wires@.take(k + 1).last() == wires[k as int]);
            let u = Usage { index: idx, name: wires[k as int].loc@, color: wires[k as int].color };
            assert(wire_usages(idx, wires@.take(k + 1)) == before.push(u));
            assert((start + before).push(u) =~= start + before.push(u));
        }
        k += 1;
    }
    proof {
        assert(wires@.take(k as int) =~= wires@);
    }
    scan
}

proof fn lemma_wire_is_listed(wires: Seq<Wire>, j: int)
    requires
        0 <= j < wires.len(),
    ensures
        locations_of(wires, wires[j].color).contains(wires[j].loc@),
    decreases wires.len(),
{
    let color = wires[j].color;
    let rest = locations_of(wires.drop_last(), color);
    if j == wires.len() - 1 {
        assert(rest.push(wires[j].loc@)[rest.len() as int] == wires[j].loc@);
    } else {
        assert(wires.drop_last()[j] == wires[j]);
        lemma_wire_is_listed(wires.drop_last(), j);
        let at = choose|at: int| 0 <= at < rest.len() && rest[at] == wires[j].loc@;
        if wires.last().color == color {
            assert(rest.push(wires.last().loc@)[at] == wires[j].loc@);
        }
    }
}

/// Checks that every wire can reach. The uses of the statements are taken
/// in order; of every use but the first of its network, the distance to the
/// previous use of that network is measured in statements. The first use
/// whose distance is over `REACH` is reported; where there is none, the
/// check passes.
pub fn check_reach(stmts: &Vec<Statement>, refs: &References) -> (r: Result<(), ReachError>)
    requires
        covers(refs@, stmts@),
    ensures
        match r {
            Ok(()) => reach_model(refs@, usages(stmts@, stmts.len() as nat)) == Ok::<
                (),
                ReachErrorView,
            >(()),
            Err(e) => reach_model(refs@, usages(stmts@, stmts.len() as nat)) == Err::<
                (),
                ReachErrorView,
            >(e@),
        },
        r is Err ==> first_out_of_reach(
            refs@,
            usages(stmts@, stmts.len() as nat),
            first_violation(refs@, usages(stmts@, stmts.len() as nat)),
        ),
{
    let mut scan = Scan {
        red: NetworkIndex::new(),
        green: NetworkIndex::new(),
        failure: None,
        done: Ghost(Seq::empty()),
    };
    let mut idx: usize = 0;
    while idx < stmts.len()
        invariant
            idx <= stmts.len(),
            covers(refs@, stmts@),
            scan_inv(scan, refs@, idx),
            scan.done@ == usages(stmts@, idx as nat),
        decreases stmts.len() - idx,
    {
        let stmt = &stmts[idx];
        let ghost start = scan.done@;
        let outputs = output_names_of(stmt, idx);
        let mut input: Vec<String> = Vec::new();
        input.push(input_line(idx));
        proof {
            assert(texts_of(input@) =~= seq![input_label(idx as nat)]);
            assert forall|j: int, color: WireColor| 0 <= j < outputs.len() implies #[trigger] known(
                refs@,
                color,
                outputs[j]@,
            ) by {
                assert(texts_of(outputs@)[j] == outputs[j]@);
                assert(output_names(*stmt, idx as nat).contains(outputs[j]@));
                let i = idx as int;
                assert(mentions(stmts@[i], i as nat, color, outputs[j]@));
            }
            assert forall|j: int, color: WireColor| 0 <= j < input.len() implies #[trigger] known(
                refs@,
                color,
                input[j]@,
            ) by {
                assert(input_names(*stmt, idx as nat, color)[0] == input[j]@);
                let i = idx as int;
                assert(input_names(*stmt, idx as nat, color).contains(input[j]@));
                assert(mentions(stmts@[i], i as nat, color, input[j]@));
            }
        }
        scan = check_names(scan, refs, idx, &outputs);
        scan = check_names(scan, refs, idx, &input);
        match &stmt.wires {
            Some(wires) => {
                proof {
                    assert forall|j: int| 0 <= j < wires.len() implies refs@.of(
                        (#[trigger] wires[j]).color,
                    ).dom().contains(wires[j].loc@) by {
                        lemma_wire_is_listed(wires@, j);
                        let color = wires[j].color;
                        let listed = locations_of(wires@, color);
                        let at = choose|at: int| 0 <= at < listed.len() && listed[at] == wires[j].loc@;
                        assert(input_names(*stmt, idx as nat, color)[at + 1] == wires[j].loc@);
                        let i = idx as int;
                        assert(input_names(*stmt, idx as nat, color).contains(wires[j].loc@));
                        assert(mentions(stmts@[i], i as nat, color, wires[j].loc@));
                    }
                }
                scan = check_wires(scan, refs, idx, wires);
            },
            None => {
                proof {
                    assert(scan.done@ + wire_usages(idx, Seq::<Wire>::empty()) =~= scan.done@);
                }
            },
        }
        proof {
            assert(scan.done@ =~= start + statement_usages(*stmt, idx));
            assert(usages(stmts@, (idx + 1) as nat) == usages(stmts@, idx as nat)
                + statement_usages(stmts@[idx as int], idx));
        }
        idx += 1;
    }
    proof {
        lemma_span_enforcement(refs@, usages(stmts@, stmts.len() as nat));
    }
    match scan.failure {
        Some(e) => {
            proof {
                let us = usages(stmts@, stmts.len() as nat);
                let k = choose|k: int| #[trigger]
                    first_out_of_reach(refs@, us, k) && e@ == violation(refs@, us, k);
                let first = first_violation(refs@, us);
                assert(first_out_of_reach(refs@, us, first));
                assert(first == k) by {
                    if first < k {
                        assert(!out_of_reach(refs@, us, first));
                    }
                    if k < first {
                        assert(!out_of_reach(refs@, us, k));
                    }
                }
            }
            Err(e)
        },
        None => Ok(()),
    }
}

} // verus!
