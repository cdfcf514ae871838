use rsync_rust::commands::{handle_delta_command, handle_signature_command};
use rsync_rust::delta::{compute_delta_to_our_file, Delta, Token};
use rsync_rust::signature::compute_signature;

// These tests establish that the general idea of the algorithm is working:
// 1 - We are referencing blocks on matching chunks
// 2 - We are sending byte literals otherwise

#[test]
fn delta_for_equal_content_is_just_block_indexes_when_chunks_divide_evenly() {
    let test_chunk_size = 3;
    // Hello World! has 12 bytes. We will have 4 chunks of size 3 and no
    // leftover. This means our delta can be 4 references to blocks.
    let file1 = b"Hello World!";
    let file2 = b"Hello World!";

    let file1_signature = compute_signature(file1, test_chunk_size);
    let delta = compute_delta_to_our_file(file1_signature, file2, test_chunk_size);

    // Delta is all BlockIndexes.
    for c in delta.content {
        assert!(matches!(c, Token::BlockIndex(_)));
    }
}

#[test]
fn delta_for_equal_content_is_block_indexes_plus_literals_when_there_is_leftover() {
    let test_chunk_size = 5;
    // Hello World! has 12 bytes. We will have 2 chunks of size 5 and a
    // leftover chunk of size 2, sent as two ByteLiterals.
    let basis_file = b"Hello World!";
    let updated_file = b"Hello World!";

    let signature = compute_signature(basis_file, test_chunk_size);
    let delta = compute_delta_to_our_file(signature, updated_file, test_chunk_size);

    // 2 BlockIndex (for the first two chunks).
    let block_indexes = &delta.content[0..2];
    for b in block_indexes {
        assert!(matches!(b, Token::BlockIndex(_)));
    }

    // 2 ByteLiterals (for the leftover chunk).
    let byte_literals = &delta.content[2..];
    for b in byte_literals {
        assert!(matches!(b, Token::ByteLiteral(_)));
    }
}

#[test]
fn delta_for_completely_different_files_has_only_literal_bytes() {
    let test_chunk_size = 3;

    // Files are completely different, no block will match.
    let basis_file = b"ABCDEF";
    let updated_file = b"GHIJKL";

    let signature = compute_signature(basis_file, test_chunk_size);
    let delta = compute_delta_to_our_file(signature, updated_file, test_chunk_size);

    for b in delta.content {
        assert!(matches!(b, Token::ByteLiteral(_)));
    }
}

#[test]
fn delta_for_similar_files_has_block_indexes_and_literal_bytes() {
    let test_chunk_size = 3;

    // We should have two matching chunks: "ABC" and "EF ".
    let basis_file = b"ZY ABCDEF ";
    let updated_file = b"ABCDxEF Z";

    let signature = compute_signature(basis_file, test_chunk_size);
    let delta = compute_delta_to_our_file(signature, updated_file, test_chunk_size);

    let byte_literals = delta
        .content
        .iter()
        .filter(|x| matches!(x, Token::ByteLiteral(_)));
    let block_indexes = delta
        .content
        .iter()
        .filter(|x| matches!(x, Token::BlockIndex(_)));

    assert!(byte_literals.count() > 0);
    assert!(block_indexes.count() > 0);
}

#[test]
fn chunk_size_bigger_means_only_literals() {
    let test_chunk_size = 100;

    let basis_file = b"ZY ABCDEF ";
    let updated_file = b"ABCDxEF Z";

    let signature = compute_signature(basis_file, test_chunk_size);
    let delta = compute_delta_to_our_file(signature, updated_file, test_chunk_size);

    let block_indexes = delta
        .content
        .iter()
        .filter(|x| matches!(x, Token::BlockIndex(_)));

    assert_eq!(block_indexes.count(), 0);
}

#[test]
fn delta_for_equal_files_is_just_block_indexes() {
    // "Hello world" has 11 bytes: three whole chunks of 3 and a trailing
    // remainder of 2 bytes. Every whole chunk is reused as a block index;
    // only the trailing `11 % 3` bytes travel as literals, since no full
    // window fits there.
    let original_bytes = b"Hello world";
    let signature = handle_signature_command(original_bytes, 3);
    let our_bytes = b"Hello world";
    let delta_bytes = handle_delta_command(&signature, our_bytes, 3).unwrap();
    let delta = Delta::from_bytes(&delta_bytes).unwrap();

    let whole = original_bytes.len() / 3;
    for c in &delta.content[..whole] {
        assert!(matches!(c, Token::BlockIndex(_)));
    }
    for c in &delta.content[whole..] {
        assert!(matches!(c, Token::ByteLiteral(_)));
    }
}

#[test]
fn delta_for_different_files_has_byte_literals() {
    let original_bytes = b"Hello world";
    let signature = handle_signature_command(original_bytes, 3);
    let our_bytes = b"Hello world from somewhere else";
    let delta_bytes = handle_delta_command(&signature, our_bytes, 3).unwrap();
    let delta = Delta::from_bytes(&delta_bytes).unwrap();

    let literal_bytes = delta
        .content
        .iter()
        .filter(|x| matches!(x, Token::ByteLiteral(_)));
    assert!(literal_bytes.count() > 0);
}

#[test]
fn delta_for_equal_files_references_chunks_in_order() {
    // 12 bytes, chunk size 3: the delta must be exactly blocks 0, 1, 2, 3.
    let signature = compute_signature(b"Hello World!", 3);
    let delta = compute_delta_to_our_file(signature, b"Hello World!", 3);
    assert_eq!(
        delta.content,
        vec![
            Token::BlockIndex(0),
            Token::BlockIndex(1),
            Token::BlockIndex(2),
            Token::BlockIndex(3),
        ]
    );
}

#[test]
fn delta_with_remainder_is_blocks_then_trailing_literals_exactly() {
    // 12 bytes, chunk size 5: blocks 0 and 1, then "d" and "!" as literals.
    let signature = compute_signature(b"Hello World!", 5);
    let delta = compute_delta_to_our_file(signature, b"Hello World!", 5);
    assert_eq!(
        delta.content,
        vec![
            Token::BlockIndex(0),
            Token::BlockIndex(1),
            Token::ByteLiteral(b'd'),
            Token::ByteLiteral(b'!'),
        ]
    );
}

#[test]
fn delta_for_empty_updated_file_is_empty() {
    let signature = compute_signature(b"some basis", 4);
    let delta = compute_delta_to_our_file(signature, b"", 4);
    assert_eq!(delta.content.len(), 0);
}
