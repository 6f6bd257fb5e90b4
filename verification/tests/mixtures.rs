use calzone::geometry::mixtures::{gathering_ends, sorted_mixtures, MixtureDeps};

fn mix(name: &str, components: &[&str]) -> MixtureDeps {
    MixtureDeps {
        name: name.to_string(),
        components: components.iter().map(|c| c.to_string()).collect(),
    }
}

#[test]
fn mixtures_in_order() {
    // A is made of B, itself made of C: C first, then B, then A.
    let ms = vec![mix("A", &["B", "H2O"]), mix("B", &["C"]), mix("C", &["Air"])];
    assert_eq!(sorted_mixtures(&ms).ok().unwrap(), vec![2, 1, 0]);
}

#[test]
fn mixtures_already_ordered() {
    let ms = vec![mix("C", &["Air"]), mix("B", &["C"]), mix("D", &[]), mix("A", &["B"])];
    assert_eq!(sorted_mixtures(&ms).ok().unwrap(), vec![0, 1, 2, 3]);
}

#[test]
fn mixtures_moved_after_their_last_component() {
    let ms = vec![mix("X", &["Z"]), mix("Y", &["X", "Z"]), mix("Z", &[])];
    assert_eq!(sorted_mixtures(&ms).ok().unwrap(), vec![2, 0, 1]);
}

#[test]
fn mixtures_single() {
    // A single mixture is not looked into, even made of itself.
    let ms = vec![mix("A", &["A"])];
    assert_eq!(sorted_mixtures(&ms).ok().unwrap(), vec![0]);
    assert!(sorted_mixtures(&vec![]).ok().unwrap().is_empty());
}

#[test]
fn mixtures_cycle() {
    let ms = vec![mix("A", &["B"]), mix("B", &["A"])];
    match sorted_mixtures(&ms) {
        Err(e) => {
            assert_eq!(e.root, "A");
            assert_eq!(e.through, "B");
            assert_eq!(e.why(), "cycle between 'A' and 'B'");
        },
        Ok(_) => panic!("expected a cycle"),
    }
    let ms = vec![mix("A", &["A"]), mix("B", &[])];
    match sorted_mixtures(&ms) {
        Err(e) => assert_eq!(e.why(), "cycle between 'A' and 'A'"),
        Ok(_) => panic!("expected a cycle"),
    }
}

#[test]
fn mixtures_gathering_ends() {
    // A is looked into first, and B and C are made of each other.
    let ms = vec![mix("A", &["B"]), mix("B", &["C"]), mix("C", &["B"])];
    assert!(!gathering_ends(&ms));
    // B is looked into first: it is found made of itself.
    let ms = vec![mix("B", &["C"]), mix("C", &["B"]), mix("A", &["B"])];
    assert!(gathering_ends(&ms));
    match sorted_mixtures(&ms) {
        Err(e) => assert_eq!(e.why(), "cycle between 'B' and 'C'"),
        Ok(_) => panic!("expected a cycle"),
    }
    assert!(gathering_ends(&vec![mix("A", &["B"]), mix("B", &[])]));
    assert!(gathering_ends(&vec![]));
}

#[test]
fn mixtures_each_after_its_components() {
    let ms = vec![
        mix("E", &["D", "A"]),
        mix("A", &["B"]),
        mix("D", &["C", "Water"]),
        mix("B", &["C"]),
        mix("F", &[]),
        mix("C", &["Air"]),
    ];
    assert!(gathering_ends(&ms));
    let order = sorted_mixtures(&ms).ok().unwrap();
    let mut seen = order.clone();
    seen.sort();
    assert_eq!(seen, vec![0, 1, 2, 3, 4, 5]);
    let rank = |name: &str| order.iter().position(|&i| ms[i].name == name).unwrap();
    assert!(rank("C") < rank("B"));
    assert!(rank("B") < rank("A"));
    assert!(rank("A") < rank("E"));
    assert!(rank("C") < rank("D"));
    assert!(rank("D") < rank("E"));
}
