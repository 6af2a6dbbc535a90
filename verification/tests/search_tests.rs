use oblivious_astar::controller::run_search;
use oblivious_astar::enc::{
    decrypt, decrypt_idx, enc_add, enc_equals, enc_less_than, enc_select, encrypt,
    encrypt_trivial, ClientKey, EncVal,
};
use oblivious_astar::errors::SearchError;
use oblivious_astar::expander::gamma_operation;
use oblivious_astar::list::List;
use oblivious_astar::node::Node;
use oblivious_astar::oracle::ClientOracle;
use oblivious_astar::selector::compare_cost;
use oblivious_astar::state::{dec_vec, enc_vec};

fn key() -> ClientKey {
    ClientKey::new(7)
}

fn enc_state(cells: &[i8], k: &ClientKey) -> Vec<EncVal> {
    enc_vec(&cells.to_vec(), k)
}

fn make_node(cells: &[i8], f_plain: i8, id: i32, parent: i32, k: &ClientKey) -> Node {
    let zero = encrypt_trivial(0);
    let one = encrypt_trivial(1);
    let mut n = Node::new(enc_state(cells, k), encrypt_trivial(0), id, parent, zero, one);
    n.f = EncVal {
        plain: f_plain,
        key_id: 0,
    };
    n
}

#[test]
fn scalar_round_trip() {
    let k = key();
    for x in [-128i8, -1, 0, 1, 42, 127] {
        let c = encrypt(x, &k);
        assert_eq!(decrypt(&c, &k), Ok(x));
    }
}

#[test]
fn trivial_constants_decrypt_under_any_key() {
    let k1 = ClientKey::new(1);
    let k2 = ClientKey::new(2);
    let c = encrypt_trivial(5);
    assert_eq!(decrypt(&c, &k1), Ok(5));
    assert_eq!(decrypt(&c, &k2), Ok(5));
}

#[test]
fn decryption_failure_on_key_mismatch() {
    let k1 = ClientKey::new(3);
    let k2 = ClientKey::new(4);
    let c = encrypt(9, &k1);
    assert_eq!(decrypt(&c, &k2), Err(SearchError::DecryptionFailure));
}

#[test]
fn state_vector_round_trip() {
    let k = key();
    let plain: Vec<i8> = vec![2, 4, 3, 7, 0, 5, 1, 6, 8];
    let enc = enc_vec(&plain, &k);
    assert_eq!(dec_vec(&enc, &k), Ok(plain));
}

#[test]
fn state_vector_decrypt_wrong_key_fails() {
    let k1 = ClientKey::new(5);
    let k2 = ClientKey::new(6);
    let enc = enc_vec(&vec![1, 2, 3, 4, 0, 5, 6, 7, 8], &k1);
    assert_eq!(dec_vec(&enc, &k2), Err(SearchError::DecryptionFailure));
}

#[test]
fn encrypted_primitives_compute() {
    let k = key();
    let a = encrypt(3, &k);
    let b = encrypt(5, &k);
    assert_eq!(decrypt(&enc_add(&a, &b), &k), Ok(8));
    assert!(!enc_equals(&a, &b).truth);
    assert!(enc_equals(&a, &encrypt(3, &k)).truth);
    assert!(enc_less_than(&a, &b).truth);
    assert!(!enc_less_than(&b, &a).truth);
    let cond = enc_less_than(&a, &b);
    assert_eq!(decrypt(&enc_select(&cond, &a, &b), &k), Ok(3));
}

#[test]
fn heuristic_identity_is_zero() {
    let k = key();
    let goal: Vec<i8> = vec![1, 2, 3, 4, 0, 5, 6, 7, 8];
    let enc_goal = enc_state(&goal, &k);
    let zero = encrypt_trivial(0);
    let one = encrypt_trivial(1);
    let mut n = Node::new(enc_state(&goal, &k), encrypt_trivial(0), 1, -1, zero, one);
    n.heuristic(&enc_goal);
    assert_eq!(n.get_h().plain, 0);
    assert_eq!(n.get_f().plain, 0);
}

#[test]
fn heuristic_counts_mismatches_exactly() {
    let k = key();
    let start: Vec<i8> = vec![2, 4, 3, 7, 0, 5, 1, 6, 8];
    let goal: Vec<i8> = vec![1, 2, 3, 4, 0, 5, 6, 7, 8];
    let enc_goal = enc_state(&goal, &k);
    let zero = encrypt_trivial(0);
    let one = encrypt_trivial(1);
    let mut n = Node::new(enc_state(&start, &k), encrypt_trivial(0), 1, -1, zero, one);
    n.heuristic(&enc_goal);
    // cells 0, 1, 3, 6, 7 disagree
    assert_eq!(n.get_h().plain, 5);
    // heuristic is bounded by the vector length
    assert!(n.get_h().plain >= 0 && n.get_h().plain <= 9);
}

#[test]
fn selector_returns_minimum_identity() {
    let k = key();
    let cells: Vec<i8> = vec![1, 2, 3, 4, 0, 5, 6, 7, 8];
    let nodes = vec![
        make_node(&cells, 5, 1, -1, &k),
        make_node(&cells, 3, 2, 1, &k),
        make_node(&cells, 4, 3, 1, &k),
    ];
    let enc_idx = compare_cost(&nodes);
    assert_eq!(decrypt_idx(&enc_idx, &k), Ok(2));
}

#[test]
fn selector_breaks_ties_towards_first_seen() {
    let k = key();
    let cells: Vec<i8> = vec![1, 2, 3, 4, 0, 5, 6, 7, 8];
    let nodes = vec![
        make_node(&cells, 5, 1, -1, &k),
        make_node(&cells, 3, 2, 1, &k),
        make_node(&cells, 3, 3, 1, &k),
    ];
    let enc_idx = compare_cost(&nodes);
    assert_eq!(decrypt_idx(&enc_idx, &k), Ok(2));
}

fn decrypted_states(children: &[Node], k: &ClientKey) -> Vec<Vec<i8>> {
    children.iter().map(|c| dec_vec(&c.state, k).unwrap()).collect()
}

#[test]
fn expander_emits_four_cost_incremented_permutations() {
    let k = key();
    let start: Vec<i8> = vec![2, 4, 3, 7, 0, 5, 1, 6, 8];
    let goal: Vec<i8> = vec![1, 2, 3, 4, 0, 5, 6, 7, 8];
    let enc_goal = enc_state(&goal, &k);
    let zero = encrypt_trivial(0);
    let one = encrypt_trivial(1);
    let mut parent = Node::new(enc_state(&start, &k), encrypt_trivial(0), 1, -1, zero, one);
    parent.heuristic(&enc_goal);

    let children = gamma_operation(&parent, 2, &enc_goal);
    assert_eq!(children.len(), 4);
    for (d, c) in children.iter().enumerate() {
        assert_eq!(c.g.plain, parent.g.plain + 1);
        assert_eq!(c.current_idx, 2 + d as i32);
        assert_eq!(c.parent_idx, 1);
        // every child is a permutation of the parent's tile labels
        let mut tiles = dec_vec(&c.state, &k).unwrap();
        tiles.sort();
        let mut parent_tiles = start.clone();
        parent_tiles.sort();
        assert_eq!(tiles, parent_tiles);
    }
    // blank in the centre: all four moves are real, and each moves the
    // blank by the direction's offset
    let states = decrypted_states(&children, &k);
    assert_eq!(states[0][1], 0); // up
    assert_eq!(states[1][7], 0); // down
    assert_eq!(states[2][3], 0); // left
    assert_eq!(states[3][5], 0); // right
    for s in &states {
        assert_ne!(*s, start);
    }
}

#[test]
fn expander_corner_blank_yields_two_real_children() {
    let k = key();
    let corner: Vec<i8> = vec![0, 2, 3, 4, 1, 5, 6, 7, 8];
    let goal: Vec<i8> = vec![1, 2, 3, 4, 0, 5, 6, 7, 8];
    let enc_goal = enc_state(&goal, &k);
    let zero = encrypt_trivial(0);
    let one = encrypt_trivial(1);
    let mut parent = Node::new(enc_state(&corner, &k), encrypt_trivial(0), 1, -1, zero, one);
    parent.heuristic(&enc_goal);

    let children = gamma_operation(&parent, 2, &enc_goal);
    assert_eq!(children.len(), 4);
    let states = decrypted_states(&children, &k);
    let changed = states.iter().filter(|s| **s != corner).count();
    let unchanged = states.iter().filter(|s| **s == corner).count();
    assert_eq!(changed, 2);
    assert_eq!(unchanged, 2);
    // up and left are structurally impossible from the top-left corner
    assert_eq!(states[0], corner);
    assert_eq!(states[2], corner);
    assert_ne!(states[1], corner);
    assert_ne!(states[3], corner);
}

#[test]
fn frontier_lookup_and_move() {
    let k = key();
    let cells: Vec<i8> = vec![1, 2, 3, 4, 0, 5, 6, 7, 8];
    let mut list = List::new();
    let a = make_node(&cells, 1, 1, -1, &k);
    let b = make_node(&cells, 2, 2, 1, &k);
    list.push_open(&a);
    list.push_open(&b);
    assert_eq!(list.get_list_size(), 2);
    assert_eq!(list.get_open().len(), 2);

    let found = list.get_from_idx(2).unwrap();
    assert_eq!(found.current_idx, 2);

    list.mv_open_to_close(&found);
    assert_eq!(list.get_open().len(), 1);
    assert_eq!(list.get_close().len(), 1);
    assert_eq!(list.get_list_size(), 2);
    // still resolvable after the move
    assert_eq!(list.get_from_idx(2).unwrap().current_idx, 2);
}

#[test]
fn frontier_missing_identity_is_fatal() {
    let k = key();
    let cells: Vec<i8> = vec![1, 2, 3, 4, 0, 5, 6, 7, 8];
    let mut list = List::new();
    list.push_open(&make_node(&cells, 1, 1, -1, &k));
    match list.get_from_idx(99) {
        Err(e) => assert_eq!(e, SearchError::InternalConsistencyViolation(99)),
        Ok(_) => panic!("a missing identity must be a fatal error"),
    }
}

#[test]
fn duplicate_detection_flags_second_insertion_only() {
    let mut oracle = ClientOracle::new(key());
    let s: Vec<i8> = vec![2, 4, 3, 7, 0, 5, 1, 6, 8];
    let t: Vec<i8> = vec![1, 2, 3, 4, 0, 5, 6, 7, 8];
    assert!(!oracle.record_state(&s));
    assert!(oracle.record_state(&s));
    assert!(!oracle.record_state(&t));
    assert!(oracle.record_state(&t));
    assert!(oracle.record_state(&s));
}

#[test]
fn node_setters_and_getters() {
    let k = key();
    let cells: Vec<i8> = vec![1, 2, 3, 4, 0, 5, 6, 7, 8];
    let mut n = make_node(&cells, 3, 4, 2, &k);
    assert_eq!(n.get_f().plain, 3);
    n.set_parent(9);
    assert_eq!(n.parent_idx, 9);
    assert_eq!(dec_vec(&n.get_state(), &k).unwrap(), cells);
}

#[test]
fn search_solves_the_worked_example() {
    let k = key();
    let start: Vec<i8> = vec![2, 4, 3, 7, 0, 5, 1, 6, 8];
    let goal: Vec<i8> = vec![1, 2, 3, 4, 0, 5, 6, 7, 8];
    let enc_start = enc_state(&start, &k);
    let enc_goal = enc_state(&goal, &k);
    let mut oracle = ClientOracle::new(k);

    let path = run_search(&enc_start, &enc_goal, &mut oracle).unwrap();
    assert!(path.len() >= 2);
    assert_eq!(path[0], start);
    assert_eq!(path[path.len() - 1], goal);
    // the goal (zero heuristic) appears only at the final element
    for s in &path[..path.len() - 1] {
        assert_ne!(*s, goal);
    }
    // consecutive states differ by exactly one blank swap
    for w in path.windows(2) {
        let diff = w[0].iter().zip(w[1].iter()).filter(|(x, y)| x != y).count();
        assert_eq!(diff, 2);
    }
}

#[test]
fn search_trivial_instance_returns_start_only() {
    let k = key();
    let goal: Vec<i8> = vec![1, 2, 3, 4, 0, 5, 6, 7, 8];
    let enc_start = enc_state(&goal, &k);
    let enc_goal = enc_state(&goal, &k);
    let mut oracle = ClientOracle::new(k);
    let path = run_search(&enc_start, &enc_goal, &mut oracle).unwrap();
    assert_eq!(path, vec![goal]);
}

#[test]
fn search_exhausts_when_no_move_ever_applies() {
    // no cell holds the blank, so every child reproduces its parent and
    // the open set runs dry
    let k = key();
    let start: Vec<i8> = vec![1, 1, 1, 1, 1, 1, 1, 1, 1];
    let goal: Vec<i8> = vec![2, 2, 2, 2, 2, 2, 2, 2, 2];
    let enc_start = enc_state(&start, &k);
    let enc_goal = enc_state(&goal, &k);
    let mut oracle = ClientOracle::new(k);
    let r = run_search(&enc_start, &enc_goal, &mut oracle);
    assert_eq!(r.unwrap_err(), SearchError::SearchExhausted);
}
