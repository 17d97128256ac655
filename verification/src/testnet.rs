//! A network of parties in one process.

use crate::connect::{
    can_be_told, is_connected_node, law_connected_party_has_all_channels,
    law_every_dial_goes_to_its_party, made_in, outbound, records, target, Connecting, Dial, Link,
    Multiplex, Unannounced,
};
use crate::connection::MpcNetConnection;
use crate::peer::Peer;
use crate::stream_id::MULTIPLEXED_STREAMS;
use std::collections::HashMap;
use vstd::prelude::*;

verus! {

broadcast use vstd::std_specs::hash::group_hash_axioms;

/// A network of parties in one process, by their numbers.
pub struct LocalTestNet<L, A, S> {
    nodes: HashMap<usize, MpcNetConnection<L, A, S>>,
}

/// The addresses of these listeners.
pub open spec fn addresses_of<L, A>(bound: Seq<(L, A)>) -> Seq<A> {
    bound.map_values(|b: (L, A)| b.1)
}

/// The parties of a network that listen at these addresses, before they connect.
pub open spec fn fresh_peers<A, S>(addrs: Seq<A>) -> Map<u32, Peer<A, S>> {
    Map::new(
        |id: u32| id < addrs.len(),
        |id: u32| Peer { id, listen_addr: addrs[id as int], streams: None },
    )
}

/// Whether `node` is party `i` of the network with these listeners, before it connects.
pub open spec fn is_fresh_node<L, A, S>(
    node: MpcNetConnection<L, A, S>,
    i: int,
    bound: Seq<(L, A)>,
) -> bool {
    &&& node.id == i
    &&& node.listener == Some(bound[i].0)
    &&& node.n_parties == bound.len()
    &&& node.peers@ == fresh_peers::<A, S>(addresses_of(bound))
}

/// The map that these entries make; of two with one key the later one counts.
pub open spec fn collected<V>(entries: Seq<(usize, V)>) -> Map<usize, V>
    decreases entries.len(),
{
    if entries.len() == 0 {
        Map::empty()
    } else {
        collected(entries.drop_last()).insert(entries.last().0, entries.last().1)
    }
}

/// Whether `order` lists the entries of `nodes` by ascending key, each once.
pub open spec fn in_party_order<V>(order: Seq<(usize, V)>, nodes: Map<usize, V>) -> bool {
    &&& forall|i: int, j: int| 0 <= i < j < order.len() ==> order[i].0 < order[j].0
    &&& forall|i: int|
        0 <= i < order.len() ==> nodes.contains_key((#[trigger] order[i]).0)
            && nodes[order[i].0] == order[i].1
    &&& forall|id: usize| #[trigger]
        nodes.contains_key(id) ==> exists|i: int| 0 <= i < order.len() && (#[trigger] order[i]).0 == id
}

fn addresses<L, A: Copy>(bound: &Vec<(L, A)>) -> (r: Vec<A>)
    ensures
        r@ == addresses_of(bound@),
{
    let mut r: Vec<A> = Vec::new();
    for i in 0..bound.len()
        invariant
            r@ == addresses_of(bound@).take(i as int),
    {
        r.push(bound[i].1);
    }
    r
}

fn peers_at<A: Copy, S>(addrs: &Vec<A>) -> (r: HashMap<u32, Peer<A, S>>)
    requires
        addrs@.len() <= 0x1_0000_0000,
    ensures
        r@ == fresh_peers::<A, S>(addrs@),
{
    let mut r: HashMap<u32, Peer<A, S>> = HashMap::new();
    for i in 0..addrs.len()
        invariant
            addrs@.len() <= 0x1_0000_0000,
            r@ == fresh_peers::<A, S>(addrs@.take(i as int)),
    {
        let id: u32 = i as u32;
        r.insert(id, Peer { id, listen_addr: addrs[i], streams: None });
    }
    assert(addrs@.take(addrs@.len() as int) =~= addrs@);
    r
}

impl<L, A: Copy, S> LocalTestNet<L, A, S> {
    /// The parties of a network whose listeners are bound, each with what it knows of
    /// the others, before they connect.
    pub fn new_local_testnet(bound: Vec<(L, A)>) -> (nodes: Vec<
        (usize, MpcNetConnection<L, A, S>),
    >)
        requires
            bound@.len() <= 0x1_0000_0000,
        ensures
            nodes@.len() == bound@.len(),
            forall|i: int|
                0 <= i < nodes@.len() ==> (#[trigger] nodes@[i]).0 == i && is_fresh_node(
                    nodes@[i].1,
                    i,
                    bound@,
                ),
    {
        let ghost all = bound@;
        let n: usize = bound.len();
        let addrs: Vec<A> = addresses(&bound);
        let mut nodes: Vec<(usize, MpcNetConnection<L, A, S>)> = Vec::new();
        for (listener, _) in it: bound
            invariant
                it.seq() == all,
                n == all.len() <= 0x1_0000_0000,
                addrs@ == addresses_of(all),
                nodes@.len() == it.index(),
                forall|i: int|
                    0 <= i < nodes@.len() ==> (#[trigger] nodes@[i]).0 == i && is_fresh_node(
                        nodes@[i].1,
                        i,
                        all,
                    ),
        {
            let i: usize = nodes.len();
            let peers: HashMap<u32, Peer<A, S>> = peers_at(&addrs);
            nodes.push(
                (
                    i,
                    MpcNetConnection {
                        id: i as u32,
                        listener: Some(listener),
                        peers,
                        n_parties: n,
                    },
                ),
            );
        }
        nodes
    }
}

impl<L, A, S> LocalTestNet<L, A, S> {
    /// The parties.
    pub closed spec fn nodes(self) -> Map<usize, MpcNetConnection<L, A, S>> {
        self.nodes@
    }

    /// The network of parties that have connected, in whatever order they did.
    pub fn from_nodes(connected: Vec<(usize, MpcNetConnection<L, A, S>)>) -> (net: Self)
        ensures
            net.nodes() == collected(connected@),
    {
        let ghost all = connected@;
        let mut nodes: HashMap<usize, MpcNetConnection<L, A, S>> = HashMap::new();
        for (id, node) in it: connected
            invariant
                it.seq() == all,
                nodes@ == collected(all.take(it.index() as int)),
        {
            assert(all.take(it.index() + 1).drop_last() =~= all.take(it.index() as int));
            nodes.insert(id, node);
        }
        assert(all.take(all.len() as int) =~= all);
        LocalTestNet { nodes }
    }

    /// The connection of a party.
    pub fn get_connection(&self, party_id: usize) -> (c: &MpcNetConnection<L, A, S>)
        requires
            self.nodes().contains_key(party_id),
        ensures
            *c == self.nodes()[party_id],
    {
        self.nodes.get(&party_id).unwrap()
    }

    /// The connection of the king, which is party 0.
    pub fn get_king(&self) -> (c: &MpcNetConnection<L, A, S>)
        requires
            self.nodes().contains_key(0),
        ensures
            *c == self.nodes()[0],
    {
        self.get_connection(0)
    }

    /// The parties in the order in which a round starts them and lists their results:
    /// by ascending number.
    pub fn simulate_network_round(self) -> (order: Vec<(usize, MpcNetConnection<L, A, S>)>)
        ensures
            in_party_order(order@, self.nodes()),
    {
        let ids: Vec<usize> = sorted_keys(&self.nodes);
        let ghost all = self.nodes@;
        let mut nodes: HashMap<usize, MpcNetConnection<L, A, S>> = self.nodes;
        let mut order: Vec<(usize, MpcNetConnection<L, A, S>)> = Vec::new();
        for i in 0..ids.len()
            invariant
                ascending(ids@),
                ids@.to_set() == all.dom(),
                order@.len() == i,
                forall|j: int|
                    0 <= j < i ==> (#[trigger] order@[j]).0 == ids@[j] && order@[j].1
                        == all[ids@[j]],
                forall|j: int|
                    i <= j < ids@.len() ==> nodes@.contains_key(#[trigger] ids@[j])
                        && nodes@[ids@[j]] == all[ids@[j]],
        {
            let node: MpcNetConnection<L, A, S> = nodes.remove(&ids[i]).unwrap();
            order.push((ids[i], node));
        }
        assert forall|j: int| 0 <= j < order@.len() implies all.contains_key(
            (#[trigger] order@[j]).0,
        ) by {
            assert(ids@.to_set().contains(ids@[j]));
        }
        assert forall|id: usize| #[trigger] all.contains_key(id) implies exists|j: int|
            0 <= j < order@.len() && (#[trigger] order@[j]).0 == id by {
            assert(ids@.to_set().contains(id));
            let j = choose|j: int| 0 <= j < ids@.len() && ids@[j] == id;
            assert(order@[j].0 == id);
        }
        order
    }
}

/// Whether the numbers ascend strictly.
pub open spec fn ascending(ids: Seq<usize>) -> bool {
    forall|i: int, j: int| 0 <= i < j < ids.len() ==> ids[i] < ids[j]
}

/// Puts a new number at its place among ascending ones.
fn insert_ascending(ids: &mut Vec<usize>, id: usize)
    requires
        ascending(old(ids)@),
        !old(ids)@.contains(id),
    ensures
        ascending(final(ids)@),
        final(ids)@.to_set() == old(ids)@.to_set().insert(id),
{
    let ghost before = ids@;
    let mut at: usize = 0;
    while at < ids.len() && ids[at] < id
        invariant
            ids@ == before,
            ascending(before),
            at <= before.len(),
            forall|i: int| 0 <= i < at ==> before[i] < id,
        decreases before.len() - at,
    {
        at = at + 1;
    }
    ids.insert(at, id);
    assert forall|x: usize| ids@.to_set().contains(x) <==> before.to_set().insert(id).contains(x) by {
        if before.contains(x) {
            let i = choose|i: int| 0 <= i < before.len() && before[i] == x;
            assert(ids@[if i < at { i } else { i + 1 }] == x);
        }
        assert(ids@[at as int] == id);
        if ids@.contains(x) && x != id {
            let i = choose|i: int| 0 <= i < ids@.len() && ids@[i] == x;
            assert(before[if i < at { i } else { i - 1 }] == x);
        }
    }
    assert(ids@.to_set() =~= before.to_set().insert(id));
}

/// The keys of a map, ascending.
fn sorted_keys<V>(nodes: &HashMap<usize, V>) -> (ids: Vec<usize>)
    ensures
        ascending(ids@),
        ids@.to_set() == nodes@.dom(),
{
    let mut ids: Vec<usize> = Vec::new();
    for id in it: nodes.keys()
        invariant
            it.seq().no_duplicates(),
            it.seq().unref().to_set() == nodes@.dom(),
            ascending(ids@),
            forall|i: int| 0 <= i < it.index() ==> ids@.to_set().contains(*#[trigger] it.seq()[i]),
            forall|x: usize| #[trigger]
                ids@.to_set().contains(x) ==> exists|i: int|
                    0 <= i < it.index() && *(#[trigger] it.seq()[i]) == x,
    {
        assert(!ids@.contains(*id)) by {
            if ids@.contains(*id) {
                assert(ids@.to_set().contains(*id));
                let i = choose|i: int| 0 <= i < it.index() && *(#[trigger] it.seq()[i]) == *id;
                assert(it.seq()[i] == it.seq()[it.index() as int]);
            }
        }
        insert_ascending(&mut ids, *id);
        assert(*it.seq()[it.index() as int] == *id);
    }
    assert(ids@.to_set() =~= nodes@.dom()) by {
        let keys = vstd::std_specs::iter::IteratorSpec::remaining(&nodes.keys());
        assert forall|x: usize| ids@.to_set().contains(x) <==> nodes@.dom().contains(x) by {
            if nodes@.dom().contains(x) {
                assert(keys.unref().to_set().contains(x));
                let i = choose|i: int| 0 <= i < keys.unref().len() && keys.unref()[i] == x;
                assert(*keys[i] == x);
            }
            if ids@.to_set().contains(x) {
                let i = choose|i: int| 0 <= i < keys.len() && *(#[trigger] keys[i]) == x;
                assert(keys.unref()[i] == x);
                assert(keys.unref().to_set().contains(x));
            }
        }
    }
    ids
}

/// A party of a new network can begin to connect, knows every party, and dials each at
/// the address at which that party listens.
pub proof fn law_fresh_party_can_connect<L, A, S>(
    node: MpcNetConnection<L, A, S>,
    i: int,
    bound: Seq<(L, A)>,
)
    requires
        0 <= i < bound.len() <= 0x1_0000_0000,
        is_fresh_node(node, i, bound),
    ensures
        node.listener is Some,
        node.id < node.n_parties,
        node.peers@.dom() == Set::new(|id: u32| id < node.n_parties),
        forall|made: nat|
            made < outbound(node.id as nat, node.n_parties as nat) ==> {
                let to = #[trigger] target(node.id as nat, made);
                &&& node.peers@.contains_key(to as u32)
                &&& node.peers@[to as u32].listen_addr == bound[to as int].1
            },
{
    assert(node.peers@.dom() =~= Set::new(|id: u32| id < node.n_parties));
}

/// Where no two parties have the same number, each is found under its own, whatever
/// the order in which they connected.
pub proof fn law_parties_keep_their_numbers<V>(entries: Seq<(usize, V)>, i: int)
    requires
        0 <= i < entries.len(),
        forall|j: int, k: int|
            0 <= j < k < entries.len() ==> (#[trigger] entries[j]).0 != (#[trigger] entries[k]).0,
    ensures
        collected(entries).contains_key(entries[i].0),
        collected(entries)[entries[i].0] == entries[i].1,
    decreases entries.len(),
{
    if i < entries.len() - 1 {
        let rest = entries.drop_last();
        assert forall|j: int, k: int| 0 <= j < k < rest.len() implies (#[trigger] rest[j]).0 != (
        #[trigger] rest[k]).0 by {
            assert(entries[j].0 != entries[k].0);
        }
        law_parties_keep_their_numbers(rest, i);
        assert(entries[i].0 != entries[entries.len() - 1].0);
    }
}

/// A network is a full mesh: where `n` parties have connected, in whatever order, party `i`
/// has all the multiplexed channels to every other party `k`, and none to itself.
pub proof fn law_network_is_a_full_mesh<L, A, S>(
    entries: Seq<(usize, MpcNetConnection<L, A, S>)>,
    n: nat,
    i: int,
    k: u32,
)
    requires
        n <= 0x1_0000_0000,
        forall|e: int|
            0 <= e < entries.len() ==> (#[trigger] entries[e]).0 == entries[e].1.id
                && is_connected_node(entries[e].1, n),
        forall|e: int, f: int|
            0 <= e < f < entries.len() ==> (#[trigger] entries[e]).0 != (#[trigger] entries[f]).0,
        0 <= i < entries.len(),
        k < n,
    ensures
        ({
            let party = entries[i].0;
            let node = collected(entries)[party];
            &&& collected(entries).contains_key(party)
            &&& node.id == party
            &&& node.peers@[k].streams is Some <==> k != party
            &&& node.peers@[k].streams matches Some(streams) ==> streams@.len()
                == MULTIPLEXED_STREAMS
        }),
{
    law_parties_keep_their_numbers(entries, i);
    law_connected_party_has_all_channels(entries[i].1, n, k);
}

proof fn lemma_place_below_number<V>(order: Seq<(usize, V)>, nodes: Map<usize, V>, i: int)
    requires
        in_party_order(order, nodes),
        0 <= i < order.len(),
    ensures
        i <= order[i].0,
    decreases i,
{
    if i > 0 {
        lemma_place_below_number(order, nodes, i - 1);
    }
}

proof fn lemma_place_is_number<V>(order: Seq<(usize, V)>, nodes: Map<usize, V>, n: nat, i: int)
    requires
        in_party_order(order, nodes),
        nodes.dom() == Set::new(|id: usize| id < n),
        0 <= i < n <= usize::MAX,
    ensures
        i < order.len(),
        order[i].0 == i,
    decreases i,
{
    let id = i as usize;
    assert(nodes.dom().contains(id));
    let j = choose|j: int| 0 <= j < order.len() && (#[trigger] order[j]).0 == id;
    lemma_place_below_number(order, nodes, j);
    if j < i {
        lemma_place_is_number(order, nodes, n, j);
    }
}

/// A round on a network `0, 1, .., n - 1` has `n` results, and that of party `i` at
/// place `i`.
pub proof fn law_results_are_by_party<V>(order: Seq<(usize, V)>, nodes: Map<usize, V>, n: nat)
    requires
        in_party_order(order, nodes),
        nodes.dom() == Set::new(|id: usize| id < n),
        n <= usize::MAX,
    ensures
        order.len() == n,
        forall|i: int| 0 <= i < n ==> (#[trigger] order[i]).0 == i && order[i].1 == nodes[i as usize],
{
    assert forall|i: int| 0 <= i < n implies (#[trigger] order[i]).0 == i && order[i].1
        == nodes[i as usize] by {
        lemma_place_is_number(order, nodes, n, i);
    }
    if n > 0 {
        lemma_place_is_number(order, nodes, n, n - 1);
    }
    if order.len() > n {
        lemma_place_below_number(order, nodes, n as int);
        assert(nodes.contains_key(order[n as int].0));
        assert(nodes.dom().contains(order[n as int].0));
    }
}

/// Every party of a new network has its place as its number, its own listener, and everybody,
/// itself too, under that one's number, at the address of that one's listener, without
/// channels.
pub proof fn law_fresh_parties_know_everyone<L, A: Copy, S>(
    bound: Vec<(L, A)>,
    nodes: Vec<(usize, MpcNetConnection<L, A, S>)>,
    i: int,
    k: u32,
)
    requires
        bound@.len() <= 0x1_0000_0000,
        call_ensures(LocalTestNet::<L, A, S>::new_local_testnet, (bound,), nodes),
        0 <= i < bound@.len(),
    ensures
        nodes@.len() == bound@.len(),
        nodes@[i].0 == i,
        ({
            let node = nodes@[i].1;
            &&& node.id == i
            &&& node.listener == Some(bound@[i].0)
            &&& node.n_parties == bound@.len()
            &&& node.peers@.contains_key(k) <==> k < bound@.len()
            &&& k < bound@.len() ==> {
                &&& node.peers@[k].id == k
                &&& node.peers@[k].listen_addr == bound@[k as int].1
                &&& node.peers@[k].streams is None
            }
        }),
{
    assert(is_fresh_node(nodes@[i].1, i, bound@));
}

/// In a new network, every dial of a party goes to the address at which the listener of the
/// dialed party is bound. `links` are the connections that party `i` was told of so far, by
/// `calls`, and `states` what it was in between.
pub proof fn law_every_dial_reaches_its_listener<L, A: Copy, S>(
    bound: Vec<(L, A)>,
    nodes: Vec<(usize, MpcNetConnection<L, A, S>)>,
    i: int,
    first: &mut MpcNetConnection<L, A, S>,
    listener: L,
    links: Seq<Link<S>>,
    calls: Seq<&mut Connecting<A, S>>,
    states: Seq<Connecting<A, S>>,
    k: int,
    dial: Dial<A>,
    m: Multiplex,
)
    requires
        0 <= i < bound@.len() <= 0x1_0000_0000,
        call_ensures(LocalTestNet::<L, A, S>::new_local_testnet, (bound,), nodes),
        *old(first) == nodes@[i].1,
        call_ensures(MpcNetConnection::<L, A, S>::connect_to_all, (first,), (listener, states[0])),
        states.len() == links.len() + 1,
        calls.len() == links.len(),
        forall|e: int|
            0 <= e < links.len() ==> {
                &&& records(calls[e], #[trigger] links[e])
                &&& *calls[e] == states[e]
                &&& *final(calls[e]) == states[e + 1]
            },
        forall|e: int|
            0 <= e < links.len() ==> (#[trigger] links[e] matches Link::Accepted(caller, _)
                ==> caller < bound@.len()),
        made_in(links) <= bound@.len() - 1 - i,
        0 <= k <= links.len(),
        call_ensures(Connecting::<A, S>::next_dial, (&states[k],), Some(dial)),
        call_ensures(Unannounced::announced, (dial.connection,), m),
    ensures
        listener == bound@[i].0,
        dial.peer < bound@.len(),
        dial.peer == i + 1 + made_in(links.take(k)),
        dial.address == bound@[dial.peer as int].1,
        dial.announce == i,
{
    let before = *old(first);
    assert(is_fresh_node(nodes@[i].1, i, bound@));
    assert forall|id: u32| id < before.n_parties implies #[trigger] before.peers@.contains_key(id) by {
    }
    assert forall|e: int| 0 <= e < links.len() implies (#[trigger] links[e] matches Link::Accepted(
        caller,
        _,
    ) ==> before.peers@.contains_key(caller)) by {
    }
    assert(can_be_told(before, links));
    law_every_dial_goes_to_its_party(first, listener, links, calls, states, k, Some(dial), m);
    assert(before.peers@.contains_key(dial.peer));
}

proof fn lemma_last_of_a_number_counts<V>(entries: Seq<(usize, V)>, i: int)
    requires
        0 <= i < entries.len(),
        forall|j: int| i < j < entries.len() ==> (#[trigger] entries[j]).0 != entries[i].0,
    ensures
        collected(entries).contains_key(entries[i].0),
        collected(entries)[entries[i].0] == entries[i].1,
    decreases entries.len(),
{
    if i < entries.len() - 1 {
        let rest = entries.drop_last();
        assert forall|j: int| i < j < rest.len() implies (#[trigger] rest[j]).0 != rest[i].0 by {
            assert(entries[j].0 != entries[i].0);
        }
        lemma_last_of_a_number_counts(rest, i);
        assert(entries[entries.len() - 1].0 != entries[i].0);
    }
}

/// In a network every party is found under its number, the last one where several have the
/// same, whatever the order in which they connected; the king is number 0.
pub proof fn law_everyone_is_found<L, A, S>(
    connected: Vec<(usize, MpcNetConnection<L, A, S>)>,
    net: LocalTestNet<L, A, S>,
    i: int,
    found: &MpcNetConnection<L, A, S>,
    king: &MpcNetConnection<L, A, S>,
)
    requires
        call_ensures(LocalTestNet::<L, A, S>::from_nodes, (connected,), net),
        0 <= i < connected@.len(),
        forall|j: int| i < j < connected@.len() ==> (#[trigger] connected@[j]).0 != connected@[i].0,
        call_ensures(LocalTestNet::<L, A, S>::get_connection, (&net, connected@[i].0), found),
        call_ensures(LocalTestNet::<L, A, S>::get_king, (&net,), king),
    ensures
        *found == connected@[i].1,
        connected@[i].0 == 0 ==> *king == connected@[i].1,
{
    lemma_last_of_a_number_counts(connected@, i);
}

proof fn lemma_collected_is_listed<V>(entries: Seq<(usize, V)>, id: usize)
    requires
        collected(entries).contains_key(id),
    ensures
        exists|i: int| 0 <= i < entries.len() && (#[trigger] entries[i]).0 == id,
    decreases entries.len(),
{
    if entries.last().0 == id {
        assert(entries[entries.len() - 1].0 == id);
    } else {
        lemma_collected_is_listed(entries.drop_last(), id);
        let i = choose|i: int|
            0 <= i < entries.drop_last().len() && (#[trigger] entries.drop_last()[i]).0 == id;
        assert(entries[i].0 == id);
    }
}

/// A round is done by every party of the network exactly once, by ascending number, each with
/// its own connection.
pub proof fn law_round_is_done_by_everyone<L, A, S>(
    connected: Vec<(usize, MpcNetConnection<L, A, S>)>,
    net: LocalTestNet<L, A, S>,
    order: Vec<(usize, MpcNetConnection<L, A, S>)>,
)
    requires
        forall|j: int, k: int|
            0 <= j < k < connected@.len() ==> (#[trigger] connected@[j]).0 != (
            #[trigger] connected@[k]).0,
        call_ensures(LocalTestNet::<L, A, S>::from_nodes, (connected,), net),
        call_ensures(LocalTestNet::<L, A, S>::simulate_network_round, (net,), order),
    ensures
        forall|i: int, j: int|
            0 <= i < j < order@.len() ==> (#[trigger] order@[i]).0 < (#[trigger] order@[j]).0,
        forall|i: int|
            0 <= i < connected@.len() ==> order@.contains(#[trigger] connected@[i]),
        forall|i: int|
            0 <= i < order@.len() ==> connected@.contains(#[trigger] order@[i]),
{
    let all = collected(connected@);
    assert forall|i: int| 0 <= i < connected@.len() implies order@.contains(
        #[trigger] connected@[i],
    ) by {
        law_parties_keep_their_numbers(connected@, i);
        assert(all.contains_key(connected@[i].0));
        let j = choose|j: int| 0 <= j < order@.len() && (#[trigger] order@[j]).0 == connected@[i].0;
        assert(order@[j] == connected@[i]);
    }
    assert forall|j: int| 0 <= j < order@.len() implies connected@.contains(#[trigger] order@[j]) by {
        lemma_collected_is_listed(connected@, order@[j].0);
        let i = choose|i: int|
            0 <= i < connected@.len() && (#[trigger] connected@[i]).0 == order@[j].0;
        law_parties_keep_their_numbers(connected@, i);
        assert(connected@[i] == order@[j]);
    }
}

} // verus!
