use rustengan::broadcast::{BroadcastNode, Event, InjectedPayload, Outgoing, Payload, StepError};
use rustengan::neighborhood::NeighborHood;
use std::collections::{HashMap, HashSet};

fn names(v: &[&str]) -> Vec<String> {
    v.iter().map(|s| s.to_string()).collect()
}

fn topology(entries: &[(&str, &[&str])]) -> HashMap<String, Vec<String>> {
    entries
        .iter()
        .map(|(k, adj)| (k.to_string(), names(adj)))
        .collect()
}

fn line_of_three() -> HashMap<String, Vec<String>> {
    topology(&[("n1", &["n2"]), ("n2", &["n1", "n3"]), ("n3", &["n2"])])
}

fn set(v: &[usize]) -> HashSet<usize> {
    v.iter().copied().collect()
}

fn node(me: &str, cluster: &[&str]) -> BroadcastNode {
    BroadcastNode::from_init(me.to_string(), names(cluster))
}

fn msg(src: &str, payload: Payload) -> Event {
    Event::Message { src: src.to_string(), payload }
}

fn tick(n: &mut BroadcastNode) -> Vec<Outgoing> {
    n.step(Event::Injected(InjectedPayload::Gossip)).unwrap()
}

fn read(n: &mut BroadcastNode) -> HashSet<usize> {
    let out = n.step(msg("c1", Payload::Read)).unwrap();
    assert_eq!(out.len(), 1);
    assert!(out[0].dst.is_none());
    match &out[0].payload {
        Payload::ReadOk { messages } => messages.clone(),
        _ => panic!("expected read_ok"),
    }
}

fn gossip_parts(o: &Outgoing) -> (String, HashSet<usize>) {
    match &o.payload {
        Payload::Gossip { seen } => (o.dst.clone().unwrap(), seen.clone()),
        _ => panic!("expected gossip"),
    }
}

#[test]
fn small_cluster_every_node_leads() {
    let hood = NeighborHood::create(line_of_three());
    let all: HashSet<String> = names(&["n1", "n2", "n3"]).into_iter().collect();
    for n in ["n1", "n2", "n3"] {
        let got = hood.get_neighbours(&n.to_string());
        let mut expected = names(&[n]);
        expected.extend(names(&["n1", "n2", "n3"]));
        assert_eq!(got, expected);
        let got_set: HashSet<String> = got.into_iter().collect();
        assert_eq!(got_set, all);
    }
}

#[test]
fn broadcast_spreads_in_one_tick() {
    let cluster = ["n1", "n2", "n3"];
    let mut n1 = node("n1", &cluster);
    let mut n2 = node("n2", &cluster);
    let mut n3 = node("n3", &cluster);
    for n in [&mut n1, &mut n2, &mut n3] {
        let out = n.step(msg("c0", Payload::Topology { topology: line_of_three() })).unwrap();
        assert!(matches!(out[0].payload, Payload::TopologyOk));
    }
    let out = n1.step(msg("c1", Payload::Broadcast { message: 5 })).unwrap();
    assert_eq!(out.len(), 1);
    assert!(out[0].dst.is_none());
    assert!(matches!(out[0].payload, Payload::BroadcastOk));
    assert_eq!(read(&mut n1), set(&[5]));

    let sent: Vec<(String, HashSet<usize>)> = tick(&mut n1).iter().map(gossip_parts).collect();
    assert_eq!(
        sent,
        vec![
            ("n1".to_string(), set(&[5])),
            ("n1".to_string(), set(&[5])),
            ("n2".to_string(), set(&[5])),
            ("n3".to_string(), set(&[5])),
        ]
    );
    for peer in [&mut n2, &mut n3] {
        let out = peer.step(msg("n1", Payload::Gossip { seen: set(&[5]) })).unwrap();
        assert_eq!(out.len(), 1);
        assert!(out[0].dst.is_none());
        match &out[0].payload {
            Payload::GossipOk { seen } => assert_eq!(*seen, set(&[5])),
            _ => panic!("expected gossip_ok"),
        }
        assert_eq!(read(peer), set(&[5]));
        let back = n1.step(msg("n1", Payload::GossipOk { seen: set(&[5]) })).unwrap();
        assert!(back.is_empty());
    }
}

#[test]
fn self_heartbeat_leaves_state_unchanged() {
    let mut n1 = node("n1", &["n1"]);
    n1.step(msg("c0", Payload::Topology { topology: topology(&[("n1", &[])]) })).unwrap();
    for _ in 0..3 {
        let sent: Vec<(String, HashSet<usize>)> = tick(&mut n1).iter().map(gossip_parts).collect();
        assert_eq!(sent, vec![("n1".to_string(), set(&[])), ("n1".to_string(), set(&[]))]);
        let out = n1.step(msg("n1", Payload::Gossip { seen: set(&[]) })).unwrap();
        assert!(matches!(&out[0].payload, Payload::GossipOk { seen } if seen.is_empty()));
        assert_eq!(read(&mut n1), set(&[]));
    }
}

#[test]
fn fanout_bound_over_ten_nodes() {
    let ids: Vec<String> = (0..10).map(|i| format!("n{:02}", i)).collect();
    let topo: HashMap<String, Vec<String>> = ids.iter().map(|k| (k.clone(), vec![])).collect();
    let hood = NeighborHood::create(topo);
    let leaders = names(&["n00", "n03", "n06", "n09"]);
    for (pos, id) in ids.iter().enumerate() {
        let got = hood.get_neighbours(id);
        assert!(got.len() <= 3 + leaders.len());
        if pos % 3 == 0 {
            let end = std::cmp::min(pos + 3, 10);
            let mut expected = ids[pos..end].to_vec();
            expected.extend(leaders.clone());
            assert_eq!(got, expected);
        } else {
            assert_eq!(got, leaders);
        }
    }
}

#[test]
fn neighbours_follow_sorted_order() {
    let hood = NeighborHood::create(topology(&[
        ("c", &[]),
        ("a", &[]),
        ("e", &[]),
        ("b", &[]),
        ("d", &[]),
    ]));
    assert_eq!(hood.get_neighbours(&"a".to_string()), names(&["a", "b", "a", "c", "e"]));
    assert_eq!(hood.get_neighbours(&"c".to_string()), names(&["c", "d", "a", "c", "e"]));
    assert_eq!(hood.get_neighbours(&"e".to_string()), names(&["e", "a", "c", "e"]));
    assert_eq!(hood.get_neighbours(&"d".to_string()), names(&["a", "c", "e"]));
}

#[test]
fn unknown_source_has_no_neighbours() {
    let hood = NeighborHood::create(line_of_three());
    assert!(hood.get_neighbours(&"n9".to_string()).is_empty());
}

#[test]
fn unconfigured_and_empty_partitions_have_no_neighbours() {
    let hood = NeighborHood::default();
    assert!(hood.get_neighbours(&"n1".to_string()).is_empty());
    let empty = NeighborHood::create(HashMap::new());
    assert!(empty.get_neighbours(&"n1".to_string()).is_empty());
}

#[test]
fn single_node_is_its_own_leader() {
    let hood = NeighborHood::create(topology(&[("n1", &[])]));
    assert_eq!(hood.get_neighbours(&"n1".to_string()), names(&["n1", "n1"]));
}

#[test]
fn tick_before_topology_sends_nothing() {
    let mut n1 = node("n1", &["n1", "n2"]);
    n1.step(msg("c1", Payload::Broadcast { message: 1 })).unwrap();
    assert!(tick(&mut n1).is_empty());
}

#[test]
fn gossip_from_unknown_peer_is_refused() {
    let mut n1 = node("n1", &["n1", "n2"]);
    let r = n1.step(msg("n7", Payload::Gossip { seen: set(&[3]) }));
    assert_eq!(r.err(), Some(StepError::UnknownPeer));
    let r = n1.step(msg("n7", Payload::GossipOk { seen: set(&[3]) }));
    assert_eq!(r.err(), Some(StepError::UnknownPeer));
    assert_eq!(read(&mut n1), set(&[]));
}

#[test]
fn tick_to_neighbour_outside_cluster_is_refused() {
    let mut n1 = node("n1", &["n1"]);
    n1.step(msg("c0", Payload::Topology { topology: line_of_three() })).unwrap();
    let r = n1.step(Event::Injected(InjectedPayload::Gossip));
    assert_eq!(r.err(), Some(StepError::UnknownPeer));
}

#[test]
fn redelivered_gossip_changes_nothing() {
    let cluster = ["n1", "n2", "n3"];
    let mut n2 = node("n2", &cluster);
    n2.step(msg("c0", Payload::Topology { topology: line_of_three() })).unwrap();
    let first = n2.step(msg("n1", Payload::Gossip { seen: set(&[4, 9]) })).unwrap();
    let before_read = read(&mut n2);
    let before_tick: Vec<(String, HashSet<usize>)> = tick(&mut n2).iter().map(gossip_parts).collect();
    let second = n2.step(msg("n1", Payload::Gossip { seen: set(&[4, 9]) })).unwrap();
    assert_eq!(first.len(), second.len());
    assert!(matches!(&second[0].payload, Payload::GossipOk { seen } if *seen == set(&[4, 9])));
    assert_eq!(read(&mut n2), before_read);
    let after_tick: Vec<(String, HashSet<usize>)> = tick(&mut n2).iter().map(gossip_parts).collect();
    assert_eq!(before_tick, after_tick);
    let again = n2.step(msg("n1", Payload::GossipOk { seen: set(&[4, 9]) })).unwrap();
    assert!(again.is_empty());
    assert_eq!(read(&mut n2), before_read);
}

#[test]
fn acknowledged_values_are_not_sent_again() {
    let cluster = ["n1", "n2", "n3"];
    let mut n1 = node("n1", &cluster);
    n1.step(msg("c0", Payload::Topology { topology: line_of_three() })).unwrap();
    n1.step(msg("c1", Payload::Broadcast { message: 5 })).unwrap();
    n1.step(msg("n2", Payload::GossipOk { seen: set(&[5]) })).unwrap();
    n1.step(msg("n1", Payload::GossipOk { seen: set(&[5]) })).unwrap();
    let sent: Vec<(String, HashSet<usize>)> = tick(&mut n1).iter().map(gossip_parts).collect();
    assert_eq!(
        sent,
        vec![
            ("n1".to_string(), set(&[])),
            ("n1".to_string(), set(&[])),
            ("n3".to_string(), set(&[5])),
        ]
    );
    n1.step(msg("c1", Payload::Broadcast { message: 6 })).unwrap();
    let sent: Vec<(String, HashSet<usize>)> = tick(&mut n1).iter().map(gossip_parts).collect();
    assert_eq!(sent[2], ("n2".to_string(), set(&[6])));
    assert_eq!(sent[3], ("n3".to_string(), set(&[5, 6])));
}

#[test]
fn values_are_never_lost() {
    let mut n1 = node("n1", &["n1", "n2"]);
    n1.step(msg("c1", Payload::Broadcast { message: 1 })).unwrap();
    n1.step(msg("n2", Payload::Gossip { seen: set(&[2, 3]) })).unwrap();
    n1.step(msg("c1", Payload::Broadcast { message: 1 })).unwrap();
    n1.step(msg("c0", Payload::Topology { topology: topology(&[("n1", &[]), ("n2", &[])]) }))
        .unwrap();
    n1.step(msg("n2", Payload::GossipOk { seen: set(&[]) })).unwrap();
    assert!(n1.step(msg("n2", Payload::BroadcastOk)).unwrap().is_empty());
    assert!(n1.step(msg("n2", Payload::TopologyOk)).unwrap().is_empty());
    assert!(n1.step(Event::EOF).unwrap().is_empty());
    assert_eq!(read(&mut n1), set(&[1, 2, 3]));
}

#[test]
fn duplicate_cluster_ids_are_one_peer() {
    let mut n1 = node("n1", &["n1", "n2", "n2"]);
    n1.step(msg("c0", Payload::Topology { topology: topology(&[("n1", &[]), ("n2", &[])]) }))
        .unwrap();
    n1.step(msg("c1", Payload::Broadcast { message: 8 })).unwrap();
    let sent: Vec<(String, HashSet<usize>)> = tick(&mut n1).iter().map(gossip_parts).collect();
    assert_eq!(
        sent,
        vec![
            ("n1".to_string(), set(&[8])),
            ("n1".to_string(), set(&[8])),
            ("n2".to_string(), set(&[8])),
        ]
    );
}
