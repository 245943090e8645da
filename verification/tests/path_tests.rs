use rusty_merkle_tree::merkle_tree::{verify_proof, InputError, MerkleTree};

const H1: &str = "4df6da8fb90bf07cca00104ea30a84e39a27a1e4029fce6f2e99e6466eb7d5df";
const H2: &str = "f748a54bb7b69310fdbd21f29eb3f7e159ac747f21186df0d28adf60a8400648";
const H3: &str = "af835c393ae8a87d7c955ebf6abf78e0e5706e1aa09a20ac79d128e340140512";
const H4: &str = "bbba17e78a863b9bd98ad267ae17ef669db8b92fbdfab6ae192c10cbe5b7d3eb";
const P12: &str = "f10df5b07aa0330fc43689b909e23cac820d92d4330d2ce372c3f05b05761828";
const P34: &str = "b1102337aaef163cb4175d40866ec0d0f72d3b2972eaeeefa022a85c8a61f33c";
const P33: &str = "5395abc6c7b72af9ac22115442099507dff21418e79a9200f63ac1e100af3f7a";
const ROOT4: &str = "096d5b201905aa6264e26dda6613d37a82555250de7f8199343f5ace9e5e1ac3";
const ROOT3: &str = "edc423d7cc629ea6910c3a3310289b1024d9e3f0c5c42f667853a681a847365b";

fn records(n: usize) -> Vec<String> {
    (0..n).map(|i| format!("record-{}", i)).collect()
}

fn strings(items: &[&str]) -> Vec<String> {
    items.iter().map(|s| s.to_string()).collect()
}

fn four() -> MerkleTree {
    MerkleTree::new(strings(&["hash1", "hash2", "hash3", "hash4"])).unwrap()
}

fn path_of(tree: &MerkleTree, index: usize) -> Vec<String> {
    let mut path = vec![tree.leaves()[index].clone()];
    path.extend(tree.prove_index(index));
    path
}

#[test]
fn root_of_four_records_has_the_expected_value() {
    assert_eq!(four().calculate_merkle_root(), ROOT4);
}

#[test]
fn root_of_three_records_combines_the_third_digest_with_itself() {
    let tree = MerkleTree::new(strings(&["hash1", "hash2", "hash3"])).unwrap();
    assert_eq!(tree.calculate_merkle_root(), ROOT3);
    assert_eq!(
        MerkleTree::hash_chunks(P12.to_string(), P33.to_string()),
        ROOT3
    );
    assert_eq!(MerkleTree::hash_chunks(H3.to_string(), H3.to_string()), P33);
}

#[test]
fn root_is_the_same_each_time() {
    let tree = MerkleTree::new(records(10)).unwrap();
    let first = tree.calculate_merkle_root();
    let second = tree.calculate_merkle_root();
    assert_eq!(first, second);
    let again = MerkleTree::new(records(10)).unwrap();
    assert_eq!(again.calculate_merkle_root(), first);
}

#[test]
fn sibling_paths_of_four_leaves() {
    let tree = four();
    assert_eq!(tree.prove_index(0), strings(&[H2, P34]));
    assert_eq!(tree.prove_index(1), strings(&[H1, P34]));
    assert_eq!(tree.prove_index(2), strings(&[H4, P12]));
    assert_eq!(tree.prove_index(3), strings(&[H3, P12]));
}

#[test]
fn membership_path_of_a_record() {
    let mut tree = four();
    assert_eq!(
        tree.leaf_exists("hash3".to_string()),
        Ok(strings(&[H3, H4, P12]))
    );
    assert_eq!(
        tree.leaf_exists("hash2".to_string()),
        Ok(strings(&[H2, H1, P34]))
    );
}

#[test]
fn lookup_leaves_the_tree_unchanged() {
    let mut tree = four();
    let before = tree.clone();
    let _ = tree.leaf_exists("hash1".to_string());
    let _ = tree.leaf_exists("absent".to_string());
    assert_eq!(tree, before);
}

#[test]
fn missing_record_is_leaf_not_found() {
    let mut tree = four();
    assert_eq!(
        tree.leaf_exists("not-present".to_string()),
        Err(InputError::LeafNotFound)
    );
    assert_eq!(tree.leaf_exists(String::new()), Err(InputError::LeafNotFound));
}

#[test]
fn a_digest_is_not_a_record() {
    let mut tree = four();
    assert_eq!(tree.leaf_exists(H1.to_string()), Err(InputError::LeafNotFound));
}

#[test]
fn find_leaf_returns_the_lowest_position() {
    let tree = MerkleTree::new(strings(&["a", "b", "a", "c", "b"])).unwrap();
    let a = MerkleTree::hash_string("a".to_string());
    let b = MerkleTree::hash_string("b".to_string());
    let c = MerkleTree::hash_string("c".to_string());
    assert_eq!(tree.find_leaf(&a), Some(0));
    assert_eq!(tree.find_leaf(&b), Some(1));
    assert_eq!(tree.find_leaf(&c), Some(3));
    assert_eq!(tree.find_leaf(&"a".to_string()), None);
    assert_eq!(tree.find_leaf(&MerkleTree::hash_string("d".to_string())), None);
}

#[test]
fn duplicate_record_is_proved_at_its_first_position() {
    let mut tree = MerkleTree::new(strings(&["a", "b", "a", "c"])).unwrap();
    let root = tree.calculate_merkle_root();
    let path = tree.leaf_exists("a".to_string()).unwrap();
    assert_eq!(path, path_of(&tree, 0));
    assert!(verify_proof(path, &root, 0));
}

#[test]
fn padded_record_is_proved_at_its_first_position() {
    let mut tree = MerkleTree::new(strings(&["hash1", "hash2", "hash3"])).unwrap();
    let path = tree.leaf_exists("hash3".to_string()).unwrap();
    assert_eq!(path, strings(&[H3, H3, P12]));
    assert!(verify_proof(path, ROOT3, 2));
    assert!(verify_proof(strings(&[H3, H3, P12]), ROOT3, 3));
}

#[test]
fn single_leaf_path_is_the_leaf_digest() {
    let mut tree = MerkleTree::new(strings(&["franco"])).unwrap();
    let digest = MerkleTree::hash_string("franco".to_string());
    assert_eq!(tree.prove_index(0), Vec::<String>::new());
    let path = tree.leaf_exists("franco".to_string()).unwrap();
    assert_eq!(path, vec![digest.clone()]);
    assert!(verify_proof(path.clone(), &digest, 0));
    assert!(!verify_proof(path, H1, 0));
}

#[test]
fn every_leaf_path_leads_to_the_root() {
    for n in [1usize, 2, 3, 4, 5, 8, 10, 16, 17] {
        let tree = MerkleTree::new(records(n)).unwrap();
        let root = tree.calculate_merkle_root();
        for index in 0..tree.leaves().len() {
            assert!(verify_proof(path_of(&tree, index), &root, index), "{} {}", n, index);
        }
    }
}

#[test]
fn every_record_is_found_and_verifies() {
    let input = records(10);
    let mut tree = MerkleTree::new(input.clone()).unwrap();
    let root = tree.calculate_merkle_root();
    for (index, record) in input.iter().enumerate() {
        let path = tree.leaf_exists(record.clone()).unwrap();
        assert_eq!(path[0], MerkleTree::hash_string(record.clone()));
        assert!(verify_proof(path, &root, index));
    }
}

#[test]
fn path_length_is_one_more_than_the_depth() {
    let expected = [(1usize, 1usize), (2, 2), (3, 3), (4, 3), (5, 4), (8, 4), (10, 5), (16, 5)];
    for (n, length) in expected {
        let tree = MerkleTree::new(records(n)).unwrap();
        assert_eq!(path_of(&tree, 0).len(), length);
        assert_eq!(path_of(&tree, tree.leaves().len() - 1).len(), length);
    }
}

#[test]
fn verification_replays_left_and_right_steps() {
    assert!(verify_proof(strings(&[H1, H2, P34]), ROOT4, 0));
    assert!(verify_proof(strings(&[H2, H1, P34]), ROOT4, 1));
    assert!(verify_proof(strings(&[H3, H4, P12]), ROOT4, 2));
    assert!(verify_proof(strings(&[H4, H3, P12]), ROOT4, 3));
    assert!(verify_proof(strings(&[H1, H2]), P12, 0));
    assert!(verify_proof(strings(&[ROOT4]), ROOT4, 5));
}

#[test]
fn wrong_position_is_rejected() {
    for index in [0usize, 1, 3] {
        assert!(!verify_proof(strings(&[H3, H4, P12]), ROOT4, index));
    }
    assert!(verify_proof(strings(&[H3, H4, P12]), ROOT4, 6));
}

#[test]
fn wrong_root_is_rejected() {
    let mut tree = four();
    let path = tree.leaf_exists("hash3".to_string()).unwrap();
    assert!(!verify_proof(path.clone(), ROOT3, 2));
    assert!(!verify_proof(path.clone(), "", 2));
    assert!(!verify_proof(path.clone(), P12, 2));
    assert!(!verify_proof(path, &ROOT4.to_uppercase(), 2));
}

#[test]
fn changing_any_digest_of_a_path_is_detected() {
    let tree = MerkleTree::new(records(10)).unwrap();
    let root = tree.calculate_merkle_root();
    for index in 0..tree.leaves().len() {
        let path = path_of(&tree, index);
        for at in 0..path.len() {
            let mut forged = path.clone();
            forged[at] = MerkleTree::hash_string(format!("forged-{}", at));
            assert!(!verify_proof(forged, &root, index));
            let mut cut = path.clone();
            cut[at].pop();
            assert!(!verify_proof(cut, &root, index));
        }
    }
}

#[test]
fn shortened_or_lengthened_path_is_rejected() {
    let tree = four();
    let root = tree.calculate_merkle_root();
    let mut short = path_of(&tree, 2);
    short.pop();
    assert!(!verify_proof(short, &root, 2));
    let mut long = path_of(&tree, 2);
    long.push(H1.to_string());
    assert!(!verify_proof(long, &root, 2));
}

#[test]
fn root_and_paths_are_made_of_digests() {
    let is_digest =
        |d: &String| d.len() == 64 && d.chars().all(|c| matches!(c, '0'..='9' | 'a'..='f'));
    for n in [1usize, 3, 10] {
        let tree = MerkleTree::new(records(n)).unwrap();
        assert!(is_digest(&tree.calculate_merkle_root()));
        assert!(tree.leaves().iter().all(is_digest));
        for index in 0..tree.leaves().len() {
            assert!(tree.prove_index(index).iter().all(is_digest));
        }
    }
}
