use hashing_ring::{
    bisect_right, gen_key, hash_val, seed_key, ConsistentHashing, NodeInfo, NodeInfoWithWeigth,
    WithWeightInfo, DEFAULT_INTERLEAVE_COUNT,
};

#[test]
fn test_init() {
    let mut nodes: Vec<NodeInfo> = Vec::new();
    nodes.push(NodeInfo { node_name: "192.168.0.101:11212" });
    let consistent_hasing_ring = ConsistentHashing::new(&nodes, Some(40));
    let node = consistent_hasing_ring.get_node(&String::from("some key"));
    assert_eq!(node.unwrap().node_name, "192.168.0.101:11212");
}

#[test]
fn test_besect() {
    let vec: Vec<usize> = vec![1, 2, 3, 4, 5];
    assert_eq!(bisect_right(&vec, 6, None, None), 5);
}

#[test]
fn bisect_right_goes_after_equal_elements() {
    let vec: Vec<usize> = vec![1, 2, 3, 4, 5];
    assert_eq!(bisect_right(&vec, 3, None, None), 3);
    assert_eq!(bisect_right(&vec, 0, None, None), 0);
    let dup: Vec<u32> = vec![1, 2, 2, 2, 5];
    assert_eq!(bisect_right(&dup, 2, None, None), 4);
}

#[test]
fn bisect_right_in_bounded_range() {
    let vec: Vec<u32> = vec![1, 2, 3, 4, 5, 6];
    assert_eq!(bisect_right(&vec, 10, Some(1), Some(3)), 3);
    assert_eq!(bisect_right(&vec, 0, Some(2), None), 2);
    assert_eq!(bisect_right(&vec, 4, Some(1), Some(5)), 4);
    assert_eq!(bisect_right(&vec, 4, Some(4), Some(2)), 4);
    let empty: Vec<u32> = Vec::new();
    assert_eq!(bisect_right(&empty, 4, None, None), 0);
}

#[test]
fn bisect_right_splits_ascending_sequence() {
    let vec: Vec<u32> = vec![3, 3, 7, 9, 9, 9, 12];
    for x in 0..15u32 {
        let i = bisect_right(&vec, x, None, None);
        assert!(vec[..i].iter().all(|e| *e <= x));
        assert!(vec[i..].iter().all(|e| *e > x));
    }
}

#[test]
fn hash_val_folds_little_endian_words() {
    let bytes: [u8; 16] = [0, 1, 2, 3, 4, 5, 6, 7, 8, 9, 10, 11, 12, 13, 14, 15];
    assert_eq!(hash_val(&bytes, 0), 0x0302_0100);
    assert_eq!(hash_val(&bytes, 1), 0x0706_0504);
    assert_eq!(hash_val(&bytes, 2), 0x0b0a_0908);
    assert_eq!(hash_val(&bytes, 3), 0x0f0e_0d0c);
}

#[test]
fn gen_key_uses_first_digest_word() {
    // md5("") = d41d8cd98f00b204e9800998ecf8427e
    assert_eq!(gen_key(&String::new()), 0xd98c_1dd4);
    // md5("a") = 0cc175b9c0f1b6a831c399e269772661
    assert_eq!(gen_key(&String::from("a")), 0xb975_c10c);
}

#[test]
fn seed_key_joins_name_and_index() {
    assert_eq!(seed_key(&String::from("node"), 0), "node-0");
    assert_eq!(seed_key(&String::from("10.0.0.1:11211"), 39), "10.0.0.1:11211-39");
    assert_eq!(seed_key(&String::from("x"), 1234567), "x-1234567");
}

#[test]
fn node_descriptors_report_name_and_weight() {
    let a = NodeInfo { node_name: "a:1" };
    let b = NodeInfoWithWeigth { node_name: "b:2", weight: 7 };
    assert_eq!(a.get_weight(), 1);
    assert_eq!(WithWeightInfo::to_string(&a), "a:1");
    assert_eq!(b.get_weight(), 7);
    assert_eq!(WithWeightInfo::to_string(&b), "b:2");
}

#[test]
fn empty_ring_locates_nothing() {
    let nodes: Vec<NodeInfo> = Vec::new();
    let ring = ConsistentHashing::new(&nodes, None);
    assert!(ring.get_node(&String::from("key")).is_none());
    assert!(ring.get_node_pos(&String::from("key")).is_none());
    assert!(ring.get_node_for_coordinate(0).is_none());
}

#[test]
fn zero_weight_nodes_get_no_placements() {
    let nodes = vec![NodeInfoWithWeigth { node_name: "idle", weight: 0 }];
    let ring = ConsistentHashing::new(&nodes, Some(40));
    assert!(ring.get_node(&String::from("key")).is_none());

    let mixed = vec![
        NodeInfoWithWeigth { node_name: "idle", weight: 0 },
        NodeInfoWithWeigth { node_name: "busy", weight: 2 },
    ];
    let ring = ConsistentHashing::new(&mixed, Some(40));
    for i in 0..200 {
        let key = format!("key-{}", i);
        assert_eq!(ring.get_node(&key).unwrap().node_name, "busy");
    }
}

#[test]
fn single_node_ring_always_returns_that_node() {
    let nodes = vec![NodeInfoWithWeigth { node_name: "only:1", weight: 1 }];
    let ring = ConsistentHashing::new(&nodes, Some(40));
    for i in 0..500 {
        let key = format!("k{}", i);
        assert_eq!(ring.get_node(&key).unwrap().node_name, "only:1");
    }
    assert_eq!(ring.get_node_for_coordinate(u32::MAX).unwrap().node_name, "only:1");
    assert_eq!(ring.get_node_for_coordinate(0).unwrap().node_name, "only:1");
}

#[test]
fn lookups_are_deterministic() {
    let nodes = vec![
        NodeInfo { node_name: "a:1" },
        NodeInfo { node_name: "b:1" },
        NodeInfo { node_name: "c:1" },
    ];
    let ring = ConsistentHashing::new(&nodes, None);
    let other = ConsistentHashing::new(&nodes, None);
    for i in 0..300 {
        let key = format!("user:{}", i);
        let first = ring.get_node(&key).unwrap().node_name;
        let second = ring.get_node(&key).unwrap().node_name;
        assert_eq!(first, second);
        assert_eq!(first, other.get_node(&key).unwrap().node_name);
        assert_eq!(ring.get_node_pos(&key), ring.get_coordinate_pos(gen_key(&key)));
    }
}

#[test]
fn coordinate_past_every_placement_wraps_to_first_slot() {
    let nodes = vec![NodeInfo { node_name: "a:1" }, NodeInfo { node_name: "b:1" }];
    let ring = ConsistentHashing::new(&nodes, Some(5));
    assert_eq!(ring.get_coordinate_pos(u32::MAX), Some(0));
    let first = ring.get_node_for_coordinate(0).unwrap().node_name;
    let wrapped = ring.get_node_for_coordinate(u32::MAX).unwrap().node_name;
    assert_eq!(first, wrapped);
}

#[test]
fn heavier_node_gets_proportionally_more_keys() {
    let nodes = vec![
        NodeInfoWithWeigth { node_name: "A:11211", weight: 1 },
        NodeInfoWithWeigth { node_name: "B:11211", weight: 3 },
    ];
    let ring = ConsistentHashing::new(&nodes, Some(DEFAULT_INTERLEAVE_COUNT));
    let mut a: usize = 0;
    let mut b: usize = 0;
    for i in 0..20000 {
        let key = format!("random-key-{}", i);
        match ring.get_node(&key).unwrap().node_name {
            "A:11211" => a += 1,
            "B:11211" => b += 1,
            other => panic!("unexpected node {}", other),
        }
    }
    assert!(a > 0);
    assert!(b >= 2 * a, "a = {}, b = {}", a, b);
    assert!(b <= 5 * a, "a = {}, b = {}", a, b);
}

#[test]
fn coordinates_are_ascending_after_construction() {
    let nodes = vec![
        NodeInfo { node_name: "10.0.0.1:11211" },
        NodeInfo { node_name: "10.0.0.2:11211" },
        NodeInfo { node_name: "10.0.0.3:11211" },
    ];
    let ring = ConsistentHashing::new(&nodes, None);
    let keys = ring.sorted_keys();
    assert!(keys.windows(2).all(|w| w[0] <= w[1]));
}

#[test]
fn placement_counts_follow_weights() {
    // 40 seeds per node before weighting, three coordinates per seed.
    let single = vec![NodeInfo { node_name: "solo" }];
    assert_eq!(ConsistentHashing::new(&single, None).sorted_keys().len(), 120);

    let three = vec![
        NodeInfo { node_name: "a" },
        NodeInfo { node_name: "b" },
        NodeInfo { node_name: "c" },
    ];
    assert_eq!(ConsistentHashing::new(&three, Some(40)).sorted_keys().len(), 360);

    // weights 1 and 3 of 4: floor(40 * 2 * 1 / 4) = 20 and floor(40 * 2 * 3 / 4) = 60 seeds
    let weighted = vec![
        NodeInfoWithWeigth { node_name: "A", weight: 1 },
        NodeInfoWithWeigth { node_name: "B", weight: 3 },
    ];
    assert_eq!(ConsistentHashing::new(&weighted, Some(40)).sorted_keys().len(), 240);

    // weights 1 and 2 of 3 with interleave 10: floor(20 / 3) = 6 and floor(40 / 3) = 13 seeds
    let rounded = vec![
        NodeInfoWithWeigth { node_name: "A", weight: 1 },
        NodeInfoWithWeigth { node_name: "B", weight: 2 },
    ];
    assert_eq!(ConsistentHashing::new(&rounded, Some(10)).sorted_keys().len(), 57);
}

#[test]
fn every_slot_is_a_valid_index() {
    let nodes = vec![NodeInfo { node_name: "a:1" }, NodeInfo { node_name: "b:1" }];
    let ring = ConsistentHashing::new(&nodes, Some(7));
    let keys = ring.sorted_keys().clone();
    for c in [0u32, 1, 1000, 1 << 20, 1 << 31, u32::MAX - 1, u32::MAX] {
        let pos = ring.get_coordinate_pos(c).unwrap();
        assert!(pos < keys.len());
        let expected = keys.iter().position(|k| *k > c).unwrap_or(0);
        assert_eq!(pos, expected);
    }
    for &k in keys.iter() {
        let pos = ring.get_coordinate_pos(k).unwrap();
        assert!(pos == 0 || keys[pos] > k);
    }
}
