use interactions::{Interaction, InteractionsModEquiv};
use serde_json::Value;

fn permutations(n: usize) -> Vec<Vec<usize>> {
    if n == 0 {
        return vec![vec![]];
    }
    let mut out = vec![];
    for p in permutations(n - 1) {
        for pos in 0..n {
            let mut q = p.clone();
            q.insert(pos, n - 1);
            out.push(q);
        }
    }
    out
}

fn permute(consv: &Vec<Vec<i64>>, perm: &Vec<usize>) -> Vec<Vec<i64>> {
    consv.iter().map(|xi| perm.iter().map(|&x| xi[x]).collect()).collect()
}

#[test]
fn trivial_interaction_is_separable_without_edges() {
    for n in 1..7 {
        let t = Interaction::new(n);
        assert!(t.is_separable());
        assert!(t.edges.is_empty());
        assert_eq!(t.consv.len(), n - 1);
        assert_eq!(Interaction::get_edges_from_consv(n, &t.consv), t.edges);
    }
    let t = Interaction::new(3);
    assert_eq!(t.consv, vec![vec![0, 1, 0], vec![0, 0, 1]]);
}

#[test]
fn merge_drops_exactly_one_quantity() {
    let t = Interaction::new(4);
    let m = t.merge((0, 0), (1, 2)).unwrap();
    assert_eq!(m.consv.len(), 2);
    let m2 = m.merge((0, 1), (2, 3)).unwrap();
    assert_eq!(m2.consv.len(), 1);
}

#[test]
fn merge_reduces_basis_exactly() {
    let t = Interaction::new(3);
    let m = t.merge((0, 0), (1, 2)).unwrap();
    assert_eq!(m.consv, vec![vec![0, -1, 1]]);
    assert_eq!(m.edges, vec![vec![(0, 0), (1, 2)]]);
    let m = t.merge((0, 2), (1, 1)).unwrap();
    assert_eq!(m.consv, vec![vec![0, 1, 2]]);
    assert_eq!(m.edges, vec![vec![(0, 2), (1, 1)]]);
}

#[test]
fn repeated_merge_is_already_implied() {
    let t = Interaction::new(4);
    let m = t.merge((0, 1), (2, 3)).unwrap();
    assert!(m.merge((0, 1), (2, 3)).is_none());
    let m = Interaction::new(3).merge((0, 0), (1, 2)).unwrap();
    assert!(m.merge((0, 0), (1, 2)).is_none());
}

#[test]
fn merge_on_same_pair_has_no_pivot() {
    let t = Interaction::new(3);
    assert!(t.merge((0, 1), (0, 1)).is_none());
    assert!(t.merge((0, 1), (1, 0)).is_none());
}

#[test]
fn merge_that_overflows_fails() {
    let big = Interaction {
        n: 3,
        consv: vec![vec![0, i64::MAX / 2, 0], vec![0, 0, i64::MAX / 2]],
        edges: vec![],
    };
    assert!(big.merge((0, 0), (1, 2)).is_none());
}

#[test]
fn collapsing_merge_is_not_separable() {
    let t = Interaction::new(3);
    let m = t.merge((0, 0), (1, 1)).unwrap();
    assert_eq!(m.consv, vec![vec![0, 0, 2]]);
    assert!(!m.is_separable());
}

#[test]
fn edges_ignore_quantity_order() {
    let consv = vec![vec![0, 1, 2, 3], vec![0, 0, 1, 1]];
    let swapped = vec![consv[1].clone(), consv[0].clone()];
    let e1 = Interaction::get_edges_from_consv(4, &consv);
    let e2 = Interaction::get_edges_from_consv(4, &swapped);
    assert_eq!(e1, e2);
    let mut sorted = e1.clone();
    for g in sorted.iter_mut() {
        g.sort();
    }
    sorted.sort();
    assert_eq!(sorted, e1);
    assert_eq!(e1, vec![vec![(0, 3), (1, 2)]]);
}

#[test]
fn candidate_order_for_three_states() {
    let reg = InteractionsModEquiv::new(3);
    assert_eq!(
        reg.candidate_list(),
        &vec![(0, 0, 1, 1), (0, 0, 1, 2), (0, 0, 2, 2), (0, 1, 2, 2), (0, 2, 1, 1), (1, 1, 2, 2)]
    );
    assert_eq!(reg.n(), 3);
    assert!(reg.interactions().is_empty());
}

#[test]
fn search_on_three_states() {
    let mut reg = InteractionsModEquiv::new(3);
    reg.create_list();
    let list = reg.interactions();
    assert_eq!(list.len(), 2);
    assert_eq!(list[0].consv, vec![vec![0, 1, 0], vec![0, 0, 1]]);
    assert!(list[0].edges.is_empty());
    assert_eq!(list[1].consv, vec![vec![0, -1, 1]]);
    assert_eq!(list[1].edges, vec![vec![(0, 0), (1, 2)]]);
}

#[test]
fn search_on_one_and_two_states() {
    let mut reg = InteractionsModEquiv::new(1);
    reg.create_list();
    assert_eq!(reg.interactions().len(), 1);
    let mut reg = InteractionsModEquiv::new(2);
    reg.create_list();
    assert_eq!(reg.interactions().len(), 1);
    assert_eq!(reg.interactions()[0].consv, vec![vec![0, 1]]);
}

#[test]
fn accepted_interactions_lie_in_distinct_orbits() {
    for n in 3..5 {
        let mut reg = InteractionsModEquiv::new(n);
        reg.create_list();
        let list = reg.interactions();
        assert!(list.len() >= 2);
        for (i, a) in list.iter().enumerate() {
            assert!(a.is_separable());
            for (j, b) in list.iter().enumerate() {
                if i == j {
                    continue;
                }
                for perm in permutations(n) {
                    let e = Interaction::get_edges_from_consv(n, &permute(&b.consv, &perm));
                    assert_ne!(e, a.edges);
                }
            }
        }
    }
}

#[test]
fn accepted_children_have_one_quantity_less_than_some_parent() {
    let mut reg = InteractionsModEquiv::new(4);
    reg.create_list();
    let list = reg.interactions();
    assert_eq!(list[0].consv.len(), 3);
    for x in list.iter().skip(1) {
        assert!(x.consv.len() >= 1 && x.consv.len() < 3);
    }
}

#[test]
fn create_list_twice_adds_nothing_new() {
    let mut reg = InteractionsModEquiv::new(3);
    reg.create_list();
    reg.create_list();
    assert_eq!(reg.interactions().len(), 2);
}

#[test]
fn json_round_trip_keeps_quantities_and_edges() {
    let mut reg = InteractionsModEquiv::new(3);
    reg.create_list();
    let x = &reg.interactions()[1];
    let mut obj = serde_json::Map::new();
    obj.insert("n".to_string(), Value::from(x.n as u64));
    obj.insert(
        "consv".to_string(),
        Value::Array(x.consv.iter().map(|r| Value::Array(r.iter().map(|&v| Value::from(v)).collect())).collect()),
    );
    obj.insert(
        "edges".to_string(),
        Value::Array(
            x.edges
                .iter()
                .map(|g| {
                    Value::Array(
                        g.iter()
                            .map(|&(a, b)| Value::Array(vec![Value::from(a as u64), Value::from(b as u64)]))
                            .collect(),
                    )
                })
                .collect(),
        ),
    );
    let text = serde_json::to_string(&Value::Object(obj)).unwrap();
    assert_eq!(text, "{\"consv\":[[0,-1,1]],\"edges\":[[[0,0],[1,2]]],\"n\":3}");
    let back: Value = serde_json::from_str(&text).unwrap();
    let consv: Vec<Vec<i64>> = back["consv"]
        .as_array()
        .unwrap()
        .iter()
        .map(|r| r.as_array().unwrap().iter().map(|v| v.as_i64().unwrap()).collect())
        .collect();
    let edges: Vec<Vec<(usize, usize)>> = back["edges"]
        .as_array()
        .unwrap()
        .iter()
        .map(|g| {
            g.as_array()
                .unwrap()
                .iter()
                .map(|p| (p[0].as_u64().unwrap() as usize, p[1].as_u64().unwrap() as usize))
                .collect()
        })
        .collect();
    assert_eq!(consv, x.consv);
    assert_eq!(edges, x.edges);
    assert_eq!(Interaction::get_edges_from_consv(3, &consv), edges);
}
