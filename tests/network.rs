use mycelium::network::Network;

#[test]
fn connect_canonicalizes_and_dedups() {
    let mut net: Network<u32> = Network::new();
    assert!(net.connect(5, 2, 7));
    let l = net.link(0);
    assert_eq!((l.a, l.b, l.data), (2, 5, 7));
    assert!(!net.connect(2, 5, 9));
    assert!(!net.connect(5, 2, 9));
    assert_eq!(net.len(), 1);
    assert_eq!(net.link(0).data, 7);
}

#[test]
fn connect_refuses_self_loop() {
    let mut net: Network<u32> = Network::new();
    assert!(!net.connect(3, 3, 1));
    assert_eq!(net.len(), 0);
}

#[test]
fn contains_in_either_order() {
    let mut net: Network<u32> = Network::new();
    net.connect(1, 4, 0);
    assert!(net.contains(1, 4));
    assert!(net.contains(4, 1));
    assert!(!net.contains(1, 3));
}

#[test]
fn retain_marked_keeps_order_and_set() {
    let mut net: Network<u32> = Network::new();
    net.connect(0, 1, 10);
    net.connect(1, 2, 11);
    net.connect(2, 3, 12);
    net.retain_marked(&vec![true, false, true]);
    assert_eq!(net.len(), 2);
    assert_eq!(net.link(0).data, 10);
    assert_eq!(net.link(1).data, 12);
    assert!(!net.contains(1, 2));
    // the dropped pair can be connected again
    assert!(net.connect(2, 1, 13));
    assert_eq!(net.len(), 3);
}

#[test]
fn relabel_merges_and_drops() {
    let mut net: Network<u32> = Network::new();
    net.connect(0, 1, 1);
    net.connect(1, 2, 2);
    net.connect(0, 2, 3);
    // hypha 2 becomes hypha 0: (1,2) lands on (0,1), already present; (0,2) becomes a self loop
    net.relabel(&vec![Some(0), Some(1), Some(0)]);
    assert_eq!(net.len(), 1);
    let l = net.link(0);
    assert_eq!((l.a, l.b, l.data), (0, 1, 1));
}

#[test]
fn relabel_drops_removed_endpoints() {
    let mut net: Network<u32> = Network::new();
    net.connect(0, 3, 1);
    net.connect(1, 2, 2);
    net.relabel(&vec![Some(0), None, Some(1), Some(2)]);
    assert_eq!(net.len(), 1);
    let l = net.link(0);
    assert_eq!((l.a, l.b), (0, 2));
}
