use dfint_hook::cxxset::{CxxSet, CxxSetNode};

fn node(key: i32, nil: bool) -> CxxSetNode {
    CxxSetNode { left: 0, parent: 0, right: 0, color: false, is_nil: nil, key }
}

/// Builds the set the way the host's tree would hold it after inserting
/// `keys` in order (without rebalancing).
fn host_set(keys: &[i32]) -> CxxSet {
    let mut nodes = vec![node(0, true)];
    let mut size = 0usize;
    for &k in keys {
        if nodes[0].parent == 0 {
            nodes.push(node(k, false));
            let n = nodes.len() - 1;
            nodes[0].parent = n;
            nodes[0].left = n;
            nodes[0].right = n;
            size += 1;
            continue;
        }
        let mut cur = nodes[0].parent;
        loop {
            if nodes[cur].key == k {
                break;
            }
            let go_left = k < nodes[cur].key;
            let next = if go_left { nodes[cur].left } else { nodes[cur].right };
            if next == 0 {
                nodes.push(node(k, false));
                let n = nodes.len() - 1;
                nodes[n].parent = cur;
                if go_left {
                    nodes[cur].left = n;
                } else {
                    nodes[cur].right = n;
                }
                size += 1;
                break;
            }
            cur = next;
        }
    }
    CxxSet { nodes, head: 0, size }
}

#[test]
fn contains_exactly_inserted_keys() {
    let orders: [&[i32]; 4] = [
        &[5, 3, 8, 1, 4, 7, 9],
        &[1, 2, 3, 4, 5, 6, 7],
        &[9, -4, 100, 0, 55, -30, 7, 7],
        &[i32::MAX, i32::MIN, 0],
    ];
    for keys in orders.iter() {
        let set = host_set(keys);
        for k in -40..120 {
            assert_eq!(set.contains(k), keys.contains(&k), "key {}", k);
        }
        assert!(set.contains(keys[0]));
        assert_eq!(set.contains(i32::MAX), keys.contains(&i32::MAX));
        assert_eq!(set.contains(i32::MIN), keys.contains(&i32::MIN));
    }
}

#[test]
fn empty_set_contains_nothing() {
    let set = host_set(&[]);
    assert!(!set.contains(0));
    assert!(!set.contains(-1));
}

#[test]
fn clear_empties_the_set() {
    let mut set = host_set(&[10, 5, 15, 3, 7]);
    assert_eq!(set.size, 5);
    set.clear();
    assert_eq!(set.size, 0);
    assert_eq!(set.nodes.len(), 1);
    let h = set.head;
    assert_eq!(set.nodes[h].left, h);
    assert_eq!(set.nodes[h].right, h);
    assert_eq!(set.nodes[h].parent, h);
    for k in 0..20 {
        assert!(!set.contains(k));
    }
}
