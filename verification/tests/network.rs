use std::cell::RefCell;
use std::collections::HashMap;
use std::rc::Rc;
use zksaas::connect::{
    accept_failed, dial_failed, Connecting, Multiplex, DIAL_DELAY_MILLIS,
};
use zksaas::connection::{select_stream, MpcNetConnection};
use zksaas::deg_red::ReceivedShares;
use zksaas::error::MpcNetError;
use zksaas::framing::{decode_frame, encode_frame, received};
use zksaas::mux::{multiplex_stream, MuxStep};
use zksaas::peer::{Peer, PeerSummary};
use zksaas::stream_id::{MultiplexedStreamID, MULTIPLEXED_STREAMS};
use zksaas::testnet::LocalTestNet;

const SIDS: [MultiplexedStreamID; 3] = [
    MultiplexedStreamID::Zero,
    MultiplexedStreamID::One,
    MultiplexedStreamID::Two,
];

fn error(text: &str) -> MpcNetError {
    MpcNetError::Generic(text.to_string())
}

/// One end of a channel in memory.
struct Channel {
    to: Rc<RefCell<Vec<u8>>>,
    from: Rc<RefCell<Vec<u8>>>,
}

impl Channel {
    fn pair() -> (Channel, Channel) {
        let a = Rc::new(RefCell::new(Vec::new()));
        let b = Rc::new(RefCell::new(Vec::new()));
        (Channel { to: a.clone(), from: b.clone() }, Channel { to: b, from: a })
    }

    fn send(&self, message: &[u8]) -> Result<(), MpcNetError> {
        self.to.borrow_mut().extend(encode_frame(message)?);
        Ok(())
    }

    fn receive(&self) -> Result<Vec<u8>, MpcNetError> {
        let mut bytes = self.from.borrow_mut();
        match decode_frame(&bytes)? {
            Some(frame) => {
                bytes.drain(..frame.consumed);
                received(Some(Ok(frame.payload)))
            }
            None => received(None),
        }
    }
}

type Node = MpcNetConnection<char, u16, Channel>;

/// Opens the channels of a connection, for the side that dials and for the other one.
fn open_channels(client: Multiplex, server: Multiplex) -> (Vec<Channel>, Vec<Channel>) {
    let mut dialing = multiplex_stream(client.channels, client.is_server);
    let mut accepting = multiplex_stream(server.channels, server.is_server);
    loop {
        match (dialing, accepting) {
            (MuxStep::Connect(mine), MuxStep::Accept(theirs)) => {
                let (a, b) = Channel::pair();
                dialing = mine.connected(Ok(a)).unwrap();
                accepting = theirs.accepted(Some(b)).unwrap();
            }
            (MuxStep::Done(mine), MuxStep::Done(theirs)) => return (mine, theirs),
            _ => panic!("the two sides are not in step"),
        }
    }
}

/// Channels that lead nowhere.
fn channels() -> Vec<Channel> {
    (0..MULTIPLEXED_STREAMS).map(|_| Channel::pair().0).collect()
}

fn bound(n: usize) -> Vec<(char, u16)> {
    (0..n).map(|i| ((b'a' + i as u8) as char, 9000 + i as u16)).collect()
}

fn connect(n: usize) -> LocalTestNet<char, u16, Channel> {
    let mut nodes: Vec<(usize, Node)> = LocalTestNet::new_local_testnet(bound(n));
    let mut states: Vec<Connecting<u16, Channel>> = Vec::new();
    for (i, node) in nodes.iter_mut() {
        let (listener, state) = node.connect_to_all();
        assert_eq!(listener, (b'a' + *i as u8) as char);
        assert!(node.listener.is_none());
        states.push(state);
    }
    let mut dials = 0;
    for i in 0..n {
        while let Some(dial) = states[i].next_dial() {
            dials += 1;
            let to = dial.peer;
            assert_eq!(states[i].next_to_dial(), Some(to));
            assert_eq!(dial.address, 9000 + to as u16);
            assert_eq!(dial.announce, i as u32);
            let side = dial.connection.announced();
            assert_eq!(side, Multiplex { channels: 3, is_server: false });
            let accept = states[to as usize].next_accept().unwrap();
            let other = accept.announced();
            assert_eq!(other, Multiplex { channels: 3, is_server: true });
            let (mine, theirs) = open_channels(side, other);
            states[i].record_dialed(mine);
            states[to as usize].record_accepted(i as u32, theirs);
        }
    }
    assert_eq!(dials, n * (n - 1) / 2);
    let mut connected = Vec::new();
    for ((i, mut node), state) in nodes.into_iter().zip(states) {
        assert!(!state.must_accept());
        let round = node.connected(Ok(()), state).unwrap();
        assert_eq!(round.value, i as u32);
        assert_eq!(round.channel, MultiplexedStreamID::Zero);
        assert_eq!(round.threshold, 0);
        assert_eq!(node.check_links(), Ok(()));
        assert_eq!(node.round_answered(Ok(i as u32)), Ok(()));
        // parties finish in any order
        connected.insert(0, (i, node));
    }
    LocalTestNet::from_nodes(connected)
}

#[test]
fn test_multiplexing() {
    const N_PARTIES: usize = 4;
    let testnet = connect(N_PARTIES);
    let expected_sum = (0..4).sum::<u32>();
    let parties = testnet.simulate_network_round();

    // Broadcast our ID to everyone
    for (_, conn) in &parties {
        let my_id = conn.id;
        for peer in conn.peers.values() {
            if peer.id == my_id {
                continue;
            }
            for sid in SIDS {
                select_stream(&peer.streams, sid).unwrap().send(&[my_id as u8]).unwrap();
            }
        }
    }

    // Receive everyone else's ID
    for (_, conn) in &parties {
        let my_id = conn.id;
        let mut ids = HashMap::<MultiplexedStreamID, Vec<u32>>::new();
        for peer in conn.peers.values() {
            if peer.id == my_id {
                continue;
            }
            for sid in SIDS {
                let recv_bytes = select_stream(&peer.streams, sid).unwrap().receive().unwrap();
                let decoded = recv_bytes[0] as u32;
                assert_eq!(decoded, peer.id);
                ids.entry(sid).or_default().push(decoded);
            }
        }
        assert_eq!(ids.len(), 3);
        for (_sid, ids) in ids {
            assert_eq!(expected_sum, ids.iter().sum::<u32>() + my_id);
        }
    }
}

#[test]
fn channels_do_not_mix() {
    let net = connect(3);
    let king = net.get_king();
    let other = net.get_connection(2);
    for sid in SIDS {
        king.stream_to(2, sid).unwrap().send(&[10 + sid.index() as u8]).unwrap();
    }
    for sid in [MultiplexedStreamID::Two, MultiplexedStreamID::Zero, MultiplexedStreamID::One] {
        let message = other.stream_to(0, sid).unwrap().receive().unwrap();
        assert_eq!(message, vec![10 + sid.index() as u8]);
    }
    assert_eq!(other.stream_to(1, SIDS[0]).unwrap().receive(), Err(error("Stream died")));
}

#[test]
fn network_is_a_full_mesh() {
    const N_PARTIES: usize = 4;
    let net = connect(N_PARTIES);
    for i in 0..N_PARTIES {
        for k in 0..N_PARTIES {
            let streams = &net.get_connection(i).peers[&(k as u32)].streams;
            match streams {
                Some(streams) => assert!(i != k && streams.len() == MULTIPLEXED_STREAMS),
                None => assert_eq!(i, k),
            }
        }
    }
}

#[test]
fn missing_streams() {
    let net = connect(3);
    let king = net.get_king();
    assert_eq!(king.stream_to(7, SIDS[0]).err(), Some(error("Peer 7 not found")));
    assert_eq!(
        king.stream_to(4_294_967_295, SIDS[0]).err(),
        Some(error("Peer 4294967295 not found"))
    );
    assert_eq!(king.stream_to(0, SIDS[0]).err(), Some(error("Stream is None")));
    assert_eq!(
        select_stream(&Some(vec!['x', 'y']), MultiplexedStreamID::Two).err(),
        Some(error("Stream is None"))
    );
    assert_eq!(select_stream(&Some(vec!['x', 'y']), MultiplexedStreamID::One), Ok(&'y'));
    assert_eq!(select_stream::<char>(&None, MultiplexedStreamID::Zero).err(), Some(error("Stream is None")));
}

#[test]
fn fresh_nodes_know_everyone() {
    let nodes: Vec<(usize, Node)> = LocalTestNet::new_local_testnet(bound(3));
    assert_eq!(nodes.len(), 3);
    for (i, (key, node)) in nodes.into_iter().enumerate() {
        assert_eq!(key, i);
        assert_eq!(node.party_id(), i as u32);
        assert_eq!(node.n_parties(), 3);
        assert_eq!(node.listener, Some((b'a' + i as u8) as char));
        assert_eq!(node.peers.len(), 3);
        assert!(!node.is_init());
        for id in 0..3u32 {
            let summary = node.peers[&id].summary();
            let expected = PeerSummary { id, listen_addr: 9000 + id as u16, streams: false };
            assert_eq!(summary, expected);
        }
    }
    let none: Vec<(usize, Node)> = LocalTestNet::new_local_testnet(Vec::new());
    assert!(none.is_empty());
}

#[test]
fn dialing_order() {
    let dialed = |id: usize, n: usize| -> Vec<u32> {
        let mut nodes: Vec<(usize, Node)> = LocalTestNet::new_local_testnet(bound(n));
        let (_, mut state) = nodes[id].1.connect_to_all();
        let mut order = Vec::new();
        while let Some(to) = state.next_to_dial() {
            order.push(to);
            state.record_dialed(channels());
        }
        order
    };
    assert_eq!(dialed(0, 3), vec![1, 2]);
    assert_eq!(dialed(1, 3), vec![2]);
    assert_eq!(dialed(2, 3), Vec::<u32>::new());
    assert_eq!(dialed(0, 1), Vec::<u32>::new());
    assert_eq!(dialed(1, 5), vec![2, 3, 4]);
    assert_eq!(DIAL_DELAY_MILLIS, 200);
}

#[test]
fn accepting_count() {
    let mut nodes: Vec<(usize, Node)> = LocalTestNet::new_local_testnet(bound(4));
    let (_, mut state) = nodes[2].1.connect_to_all();
    assert!(state.must_accept());
    state.record_accepted(1, channels());
    assert!(state.must_accept());
    state.record_accepted(0, channels());
    assert!(!state.must_accept());
    assert!(state.knows(3));
    assert!(!state.knows(4));
    assert!(state.next_accept().is_none());
}

#[test]
fn missing_link_fails_the_check() {
    let mut nodes: Vec<(usize, Node)> = LocalTestNet::new_local_testnet(bound(2));
    let (_, state) = nodes[0].1.connect_to_all();
    assert!(nodes[0].1.connected(Ok(()), state).is_ok());
    assert_eq!(nodes[0].1.check_links(), Err(error("Peer 1 has no stream")));
}

#[test]
fn caller_that_calls_twice_fails_the_check() {
    let mut nodes: Vec<(usize, Node)> = LocalTestNet::new_local_testnet(bound(3));
    let (_, mut state) = nodes[2].1.connect_to_all();
    state.record_accepted(1, channels());
    state.record_accepted(1, channels());
    assert!(!state.must_accept());
    assert!(nodes[2].1.connected(Ok(()), state).is_ok());
    assert_eq!(nodes[2].1.check_links(), Err(error("Peer 0 has no stream")));
}

#[test]
fn round_with_the_king() {
    let mut nodes: Vec<(usize, Node)> = LocalTestNet::new_local_testnet(bound(3));
    let rounds: Vec<_> = nodes
        .iter_mut()
        .map(|(_, node)| {
            let (_, state) = node.connect_to_all();
            node.connected(Ok(()), state).unwrap()
        })
        .collect();
    let mut heard = Some(ReceivedShares {
        shares: rounds.iter().map(|round| round.value).collect(),
        parties: vec![0, 1, 2],
    });
    for ((i, node), round) in nodes.iter().zip(rounds) {
        let next = node.round_gathered(round, Ok(heard.take())).unwrap();
        assert_eq!(next.channel, MultiplexedStreamID::Zero);
        assert_eq!(next.answer, if *i == 0 { Some(vec![0, 1, 2]) } else { None });
    }
}

#[test]
fn errors_of_the_round_are_handed_on() {
    let gone = error("gone");
    let mut nodes: Vec<(usize, Node)> = LocalTestNet::new_local_testnet(bound(1));
    let (_, state) = nodes[0].1.connect_to_all();
    let node = &mut nodes[0].1;
    let round = node.connected(Ok(()), state).unwrap();
    assert_eq!(node.round_gathered(round, Err(gone.clone())).err(), Some(gone.clone()));
    assert_eq!(node.round_answered(Err(gone.clone())), Err(gone));
    assert_eq!(node.round_answered(Ok(0)), Ok(()));
    assert!(node.listener.is_none());

    let unlinked: Vec<(usize, Node)> = LocalTestNet::new_local_testnet(bound(2));
    assert_eq!(unlinked[1].1.round_answered(Ok(1)), Err(error("Peer 0 has no stream")));
}

#[test]
fn failed_tasks_leave_the_party_unconnected() {
    let mut nodes: Vec<(usize, Node)> = LocalTestNet::new_local_testnet(bound(2));
    let (_, mut state) = nodes[0].1.connect_to_all();
    state.record_dialed(channels());
    let failed = dial_failed(1, "refused");
    assert_eq!(nodes[0].1.connected(Err(failed.clone()), state).err(), Some(failed));
    assert!(nodes[0].1.peers[&1].streams.is_none());
}

#[test]
fn connecting_drops_old_channels() {
    let mut nodes: Vec<(usize, Node)> = LocalTestNet::new_local_testnet(bound(2));
    nodes[0].1.peers.get_mut(&0).unwrap().streams = Some(channels());
    let (_, state) = nodes[0].1.connect_to_all();
    assert!(nodes[0].1.peers[&0].streams.is_some());
    assert!(nodes[0].1.connected(Ok(()), state).is_ok());
    assert!(nodes[0].1.peers[&0].streams.is_none());
}

#[test]
fn connected_party_is_not_initialised_to_itself() {
    let net = connect(2);
    let king = net.get_king();
    assert!(king.peers[&1].streams.is_some());
    assert!(king.peers[&0].streams.is_none());
    assert!(!king.is_init());
}

#[test]
fn initialised_once_every_peer_has_channels() {
    let mut nodes: Vec<(usize, Node)> = LocalTestNet::new_local_testnet(bound(2));
    let node = &mut nodes[0].1;
    for id in 0..2u32 {
        assert!(!node.is_init());
        node.peers.get_mut(&id).unwrap().streams = Some(Vec::new());
    }
    assert!(node.is_init());
    assert!(Node::default().is_init());
}

#[test]
fn default_connection() {
    let node = Node::default();
    assert_eq!(node.id, 0);
    assert_eq!(node.n_parties, 0);
    assert!(node.listener.is_none());
    assert!(node.peers.is_empty());
}

#[test]
fn rounds_go_by_party_number() {
    let net = connect(5);
    let order: Vec<usize> = net
        .simulate_network_round()
        .into_iter()
        .map(|(id, node)| {
            assert_eq!(node.id as usize, id);
            id
        })
        .collect();
    assert_eq!(order, vec![0, 1, 2, 3, 4]);
}

#[test]
fn later_of_two_with_one_number_counts() {
    let nodes: Vec<(usize, Node)> = LocalTestNet::new_local_testnet(bound(2));
    let renamed = nodes.into_iter().map(|(_, node)| (3, node)).collect();
    let net = LocalTestNet::from_nodes(renamed);
    assert_eq!(net.get_connection(3).id, 1);
    assert_eq!(net.simulate_network_round().len(), 1);
}

#[test]
fn clone_of_a_peer_has_no_channels() {
    let peer = Peer { id: 4, listen_addr: 80u16, streams: Some(vec!['x']) };
    assert_eq!(peer.summary(), PeerSummary { id: 4, listen_addr: 80, streams: true });
    let clone = peer.clone();
    assert_eq!(clone.summary(), PeerSummary { id: 4, listen_addr: 80, streams: false });
    assert_eq!(peer.streams, Some(vec!['x']));
}

#[test]
fn multiplexing_stops_at_an_error() {
    let step = multiplex_stream::<char>(2, true);
    let step = match step {
        MuxStep::Accept(state) => state.accepted(Some('x')).unwrap(),
        _ => panic!("a server accepts"),
    };
    match step {
        MuxStep::Accept(state) => {
            assert_eq!(state.accepted(None).err(), Some(error("Error accepting connection")))
        }
        _ => panic!("a server accepts"),
    }
    match multiplex_stream::<char>(2, false) {
        MuxStep::Connect(state) => {
            let cause = error("closed");
            assert_eq!(state.connected(Err(cause.clone())).err(), Some(cause))
        }
        _ => panic!("a client connects"),
    }
}

#[test]
fn multiplexing_keeps_the_order_of_channels() {
    let mut step = multiplex_stream(3, false);
    for name in ['x', 'y', 'z'] {
        step = match step {
            MuxStep::Connect(state) => state.connected(Ok(name)).unwrap(),
            _ => panic!("a client connects"),
        };
    }
    match step {
        MuxStep::Done(streams) => assert_eq!(streams, vec!['x', 'y', 'z']),
        _ => panic!("all channels are open"),
    }
    assert!(matches!(multiplex_stream::<char>(0, true), MuxStep::Done(none) if none.is_empty()));
}

#[test]
fn channel_positions() {
    let positions: Vec<usize> = SIDS.iter().map(|sid| sid.index()).collect();
    assert_eq!(positions, vec![0, 1, 2]);
    assert_eq!(MultiplexedStreamID::channel_count(), 3);
    assert_eq!(MULTIPLEXED_STREAMS, 3);
}

#[test]
fn failure_texts() {
    assert_eq!(accept_failed("no"), error("Error accepting connection: no"));
    assert_eq!(dial_failed(10, "no"), error("Error connecting to peer 10: no"));
    assert_eq!(dial_failed(0, ""), error("Error connecting to peer 0: "));
}
