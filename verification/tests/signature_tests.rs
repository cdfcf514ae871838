use rsync_rust::signature::compute_signature;

#[test]
fn equal_files_have_equal_signatures() {
    // Signatures are just hashes. Equal files should have equal signatures.
    let test_chunk_size = 4;

    let file1 = b"ABCDEFGH";
    let file2 = b"ABCDEFGH";

    let file1_signature = compute_signature(file1, test_chunk_size);
    let file2_signature = compute_signature(file2, test_chunk_size);

    assert_eq!(file1_signature, file2_signature);
}

#[test]
fn signature_equal_files_have_equal_signatures() {
    let test_chunk_size = 4;

    let file1 = b"ABCDEFGH";
    let file2 = b"ABCDEFGH";

    let file1_signature = compute_signature(file1, test_chunk_size);
    let file2_signature = compute_signature(file2, test_chunk_size);

    assert_eq!(file1_signature, file2_signature);
}

#[test]
fn different_files_have_different_signatures() {
    // It is actually possible for different files to have equal signatures
    // due to the nature of the algorithm (hashing), but that is very rare.
    let test_chunk_size = 4;

    let file1 = b"ABCDEFGH";
    let file2 = b"AB";

    let file1_signature = compute_signature(file1, test_chunk_size);
    let file2_signature = compute_signature(file2, test_chunk_size);

    assert_ne!(file1_signature, file2_signature);
}

#[test]
fn signature_different_files_have_different_signatures() {
    let test_chunk_size = 4;

    let file1 = b"ABCDEFGH";
    let file2 = b"AB";

    let file1_signature = compute_signature(file1, test_chunk_size);
    let file2_signature = compute_signature(file2, test_chunk_size);

    assert_ne!(file1_signature, file2_signature);
}

#[test]
fn chunk_size_too_big_means_only_one_block() {
    let test_chunk_size = 100;

    let file = b"ABCDEFGH";

    let file_signature = compute_signature(file, test_chunk_size);

    assert_eq!(file_signature.rolling_hashes.len(), 1);
    assert_eq!(file_signature.strong_hashes.len(), 1);
}

#[test]
fn signature_chunk_size_too_big_means_only_one_block() {
    let test_chunk_size = 100;

    let file = b"ABCDEFGH";

    let file_signature = compute_signature(file, test_chunk_size);

    assert_eq!(file_signature.rolling_hashes.len(), 1);
    assert_eq!(file_signature.strong_hashes.len(), 1);
}

#[test]
fn equal_contents_have_equal_signatures() {
    let left = b"ABCDEFGH";
    let right = b"ABCDEFGH";
    let chunk_size = 4;
    let left_signature = compute_signature(left, chunk_size);
    let right_signature = compute_signature(right, chunk_size);
    assert_eq!(left_signature, right_signature);
}

#[test]
fn different_contents_have_different_signatures() {
    let left = b"ABCDEFGH";
    let right = b"AB";
    let chunk_size = 4;
    let left_signature = compute_signature(left, chunk_size);
    let right_signature = compute_signature(right, chunk_size);
    assert_ne!(left_signature, right_signature);
}

#[test]
fn empty_file_has_empty_signature() {
    let signature = compute_signature(b"", 10);
    assert_eq!(signature.strong_hashes.len(), 0);
    assert_eq!(signature.rolling_hashes.len(), 0);
}

#[test]
fn signature_has_one_entry_per_chunk() {
    // 12 bytes with chunk size 5: two whole chunks and one shorter one.
    let signature = compute_signature(b"Hello World!", 5);
    assert_eq!(signature.strong_hashes.len(), 3);
    assert_eq!(signature.rolling_hashes.len(), 3);
}
