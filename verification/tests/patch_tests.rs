use rsync_rust::delta::{Delta, Token};
use rsync_rust::patch::{apply_delta, delta_fits};

fn create_byte_literals(bytes: &[u8]) -> Vec<Token> {
    bytes.iter().copied().map(Token::ByteLiteral).collect()
}

#[test]
fn can_construct_file_from_literal_bytes() {
    let test_chunk_size = 3;

    let delta = {
        let mut content = Vec::new();
        content.extend(create_byte_literals(b"abc"));
        content.extend(create_byte_literals(b"def"));
        Delta { content }
    };

    let empty_file = b"";
    let reconstructed = apply_delta(empty_file, &delta, test_chunk_size);

    assert_eq!(reconstructed, b"abcdef".to_vec());
}

#[test]
fn can_construct_file_from_block_indexes() {
    let test_chunk_size = 7;

    let basis_file = b"block1 block2 block3 ";
    let delta = Delta {
        content: vec![
            Token::BlockIndex(1),
            Token::BlockIndex(2),
            Token::BlockIndex(1),
            Token::BlockIndex(0),
        ],
    };

    let reconstructed = apply_delta(basis_file, &delta, test_chunk_size);

    assert_eq!(reconstructed, b"block2 block3 block2 block1 ".to_vec());
}

#[test]
fn can_construct_file_from_both_block_and_literals() {
    let test_chunk_size = 7;

    let basis_file = b"block1 ";

    let delta = {
        let mut content = Vec::new();
        content.extend(create_byte_literals(b"abc"));
        content.push(Token::BlockIndex(0));
        content.extend(create_byte_literals(b"abc"));
        Delta { content }
    };

    let reconstructed = apply_delta(basis_file, &delta, test_chunk_size);

    assert_eq!(reconstructed, b"abcblock1 abc".to_vec());
}

#[test]
fn shorter_final_chunk_is_copied_verbatim() {
    // 8 bytes with chunk size 5: chunk 1 holds only "FGH".
    let basis_file = b"ABCDEFGH";
    let delta = Delta {
        content: vec![Token::BlockIndex(1), Token::BlockIndex(0)],
    };
    let reconstructed = apply_delta(basis_file, &delta, 5);
    assert_eq!(reconstructed, b"FGHABCDE".to_vec());
}

#[test]
fn patch_length_is_the_sum_of_token_contributions() {
    // Two whole chunks of 4, one literal: 4 + 4 + 1 bytes.
    let basis_file = b"ABCDEFGH";
    let delta = Delta {
        content: vec![
            Token::BlockIndex(0),
            Token::BlockIndex(1),
            Token::ByteLiteral(b'!'),
        ],
    };
    let reconstructed = apply_delta(basis_file, &delta, 4);
    assert_eq!(reconstructed.len(), 9);
    assert_eq!(reconstructed, b"ABCDEFGH!".to_vec());
}

#[test]
fn delta_fits_refuses_out_of_range_blocks() {
    // "abcdef" with chunk size 3 has chunks 0 and 1 only.
    let delta_good = Delta {
        content: vec![Token::BlockIndex(0), Token::BlockIndex(1)],
    };
    let delta_bad = Delta {
        content: vec![Token::BlockIndex(2)],
    };
    assert!(delta_fits(&delta_good, 6, 3));
    assert!(!delta_fits(&delta_bad, 6, 3));
}
