use rusty_merkle_tree::digest::{hash_pair, hash_text};
use rusty_merkle_tree::merkle_tree::MerkleTree;
use rusty_merkle_tree::pow2::is_power_of_two;

const EMPTY: &str = "c5d2460186f7233c927e7db2dcc703c0e500b653ca82273b7bfad8045d85a470";
const ABC: &str = "4e03657aea45a94fc7d47ba826c8d667c0d1e6e33a64a036ec44f58fa12d6c45";

#[test]
fn keccak256_of_the_empty_string() {
    assert_eq!(hash_text(""), EMPTY);
    assert_eq!(MerkleTree::hash_string(String::new()), EMPTY);
}

#[test]
fn keccak256_of_abc() {
    assert_eq!(hash_text("abc"), ABC);
    assert_eq!(MerkleTree::hash_string("abc".to_string()), ABC);
}

#[test]
fn keccak256_of_single_letter_and_of_two_byte_character() {
    assert_eq!(
        hash_text("a"),
        "3ac225168df54212a25c1c01fd35bebfea408fdac2e31ddd6f80a4bbf9a5f1cb"
    );
    assert_eq!(
        hash_text("\u{e9}"),
        "e9076b2429006c3cfc23780a3ab7db373ff2200f3ee9a6c58ef84bd1c9118372"
    );
}

#[test]
fn digest_is_sixty_four_lowercase_hex_characters() {
    for text in ["", "franco", "hash1", "a longer record with spaces"] {
        let digest = hash_text(text);
        assert_eq!(digest.len(), 64);
        assert!(digest.chars().all(|c| matches!(c, '0'..='9' | 'a'..='f')));
        assert_ne!(digest, text);
    }
}

#[test]
fn pair_is_hashed_as_one_message_left_first() {
    assert_eq!(hash_pair("a", "bc"), ABC);
    assert_eq!(hash_pair("ab", "c"), ABC);
    assert_eq!(hash_pair("", "abc"), ABC);
    assert_eq!(hash_pair("abc", ""), ABC);
    assert_eq!(hash_pair("", ""), EMPTY);
    assert_ne!(hash_pair("bc", "a"), ABC);
    assert_eq!(MerkleTree::hash_chunks("a".to_string(), "bc".to_string()), ABC);
}

#[test]
fn pair_of_digests_has_the_expected_parent() {
    let left = hash_text("hash1");
    let right = hash_text("hash2");
    assert_eq!(left, "4df6da8fb90bf07cca00104ea30a84e39a27a1e4029fce6f2e99e6466eb7d5df");
    assert_eq!(right, "f748a54bb7b69310fdbd21f29eb3f7e159ac747f21186df0d28adf60a8400648");
    assert_eq!(
        hash_pair(&left, &right),
        "f10df5b07aa0330fc43689b909e23cac820d92d4330d2ce372c3f05b05761828"
    );
    assert_ne!(hash_pair(&left, &right), hash_pair(&right, &left));
}

#[test]
fn hashing_is_repeatable() {
    assert_eq!(hash_text("franco"), hash_text("franco"));
    assert_eq!(
        hash_text("franco"),
        "4c2811402611d42159a2e1fd776afcc1ec506a70e4ecf23092fdb9ecc6889367"
    );
    assert_eq!(hash_pair("x", "y"), hash_pair("x", "y"));
}

#[test]
fn powers_of_two_are_recognised() {
    for n in [1usize, 2, 4, 8, 16, 1024, 1 << 31] {
        assert!(is_power_of_two(n), "{}", n);
    }
    for n in [0usize, 3, 5, 6, 7, 9, 10, 12, 15, 1023, 1025, usize::MAX] {
        assert!(!is_power_of_two(n), "{}", n);
    }
    assert!(is_power_of_two(usize::MAX / 2 + 1));
}
