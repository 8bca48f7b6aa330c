use mycelium::colony::Colony;

fn colony_of(n: usize) -> Colony<u32, u32> {
    let mut c: Colony<u32, u32> = Colony::new();
    for i in 0..n {
        c.spawn(i as u32);
    }
    c
}

#[test]
fn anastomosis_forms_one_connection_at_min_strength() {
    let min_strength: u32 = 10;
    let mut c = colony_of(2);
    assert!(c.connect(0, 1, min_strength));
    assert!(!c.connect(1, 0, min_strength));
    assert_eq!(c.link_count(), 1);
    let l = c.link(0);
    assert_eq!((l.a, l.b, l.data), (0, 1, min_strength));
}

#[test]
fn connect_skips_dead_or_missing_hyphae() {
    let mut c = colony_of(3);
    c.kill(2);
    assert!(!c.connect(0, 2, 1));
    assert!(!c.connect(0, 7, 1));
    assert_eq!(c.link_count(), 0);
}

#[test]
fn starved_hypha_dies_and_is_removed() {
    let mut c = colony_of(3);
    c.branch(0, 30);
    c.connect(1, 3, 5);
    c.connect(0, 1, 6);
    c.kill(1);
    assert_eq!(c.alive_count(), 3);
    c.drop_dead_links();
    assert_eq!(c.link_count(), 0);
    let keep = c.remove_dead();
    assert_eq!(keep, vec![true, false, true, true]);
    assert_eq!(c.len(), 3);
    assert_eq!(c.hypha(0).body, 0);
    assert_eq!(c.hypha(1).body, 2);
    assert_eq!(c.hypha(2).body, 30);
    assert_eq!(c.hypha(2).parent, Some(0));
}

#[test]
fn compact_renames_links_and_parents() {
    let mut c = colony_of(4);
    c.branch(3, 40);
    c.branch(1, 41);
    c.connect(2, 3, 7);
    c.connect(0, 1, 8);
    c.compact(&vec![true, false, true, true, true, true]);
    assert_eq!(c.len(), 5);
    // hypha 3 is now 2, hypha 2 is now 1; the link (0,1) lost an endpoint
    assert_eq!(c.link_count(), 1);
    let l = c.link(0);
    assert_eq!((l.a, l.b, l.data), (1, 2, 7));
    assert_eq!(c.hypha(3).parent, Some(2));
    assert_eq!(c.hypha(4).parent, None);
}

#[test]
fn absorb_repoints_connections_onto_survivor() {
    let mut c = colony_of(4);
    c.connect(1, 2, 1);
    c.connect(1, 3, 2);
    c.connect(0, 1, 3);
    c.connect(0, 3, 4);
    c.absorb(0, 1);
    assert!(!c.hypha(1).alive);
    // (1,2) -> (0,2); (1,3) -> (0,3), already there; (0,1) -> self loop
    assert_eq!(c.link_count(), 2);
    assert!(c.connected(0, 2));
    assert!(c.connected(0, 3));
    assert!(!c.connected(0, 1));
    let keep = c.remove_dead();
    assert_eq!(keep, vec![true, false, true, true]);
    assert!(c.connected(0, 1));
    assert!(c.connected(0, 2));
}

#[test]
fn cap_evicts_dead_and_weak_first() {
    let mut c = colony_of(6);
    c.kill(4);
    let weak = vec![false, true, false, false, false, true];
    let keep = c.enforce_cap(4, &weak, &vec![]);
    assert_eq!(keep, vec![true, false, true, true, false, true]);
    assert_eq!(c.len(), 4);
}

#[test]
fn cap_falls_back_to_age_order() {
    let mut c = colony_of(5);
    let weak = vec![false; 5];
    let keep = c.enforce_cap(3, &weak, &vec![2, 0, 4, 1, 3]);
    assert_eq!(keep, vec![false, true, false, true, true]);
    assert_eq!(c.len(), 3);
    assert_eq!(c.hypha(0).body, 1);
}

#[test]
fn cap_holds_even_without_age_order() {
    let mut c = colony_of(5);
    let keep = c.enforce_cap(2, &vec![false; 5], &vec![]);
    assert_eq!(keep, vec![true, true, false, false, false]);
    assert_eq!(c.len(), 2);
}

#[test]
fn cap_zero_means_unlimited() {
    let mut c = colony_of(5);
    let keep = c.enforce_cap(0, &vec![true; 5], &vec![]);
    assert_eq!(keep, vec![true; 5]);
    assert_eq!(c.len(), 5);
}

#[test]
fn census_counts_match_filters() {
    let mut c = colony_of(4);
    c.kill(1);
    c.connect(0, 2, 1);
    let spores = vec![true, false, true];
    let census = c.census(&spores, 2);
    assert_eq!(census.hyphae, 3);
    assert_eq!(census.spores, spores.iter().filter(|s| **s).count());
    assert_eq!(census.connections, 1);
    assert_eq!(census.fruit_bodies, 2);
}
