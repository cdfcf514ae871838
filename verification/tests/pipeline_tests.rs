use rsync_rust::commands::{
    handle_delta_command, handle_patch_command, handle_signature_command, PatchError,
};
use rsync_rust::delta::{compute_delta_to_our_file, Delta, Token};
use rsync_rust::patch::{apply_delta, delta_fits};
use rsync_rust::signature::{calculate_strong_hash, compute_signature};

fn round_trip(basis: &[u8], updated: &[u8], chunk_size: usize) -> Vec<u8> {
    let signature = compute_signature(basis, chunk_size);
    let delta = compute_delta_to_our_file(signature, updated, chunk_size);
    assert!(delta_fits(&delta, basis.len(), chunk_size));
    apply_delta(basis, &delta, chunk_size)
}

#[test]
fn round_trip_equal_files_divisible() {
    assert_eq!(round_trip(b"Hello World!", b"Hello World!", 3), b"Hello World!".to_vec());
}

#[test]
fn round_trip_equal_files_with_remainder() {
    assert_eq!(round_trip(b"Hello World!", b"Hello World!", 5), b"Hello World!".to_vec());
}

#[test]
fn round_trip_dissimilar_files() {
    assert_eq!(round_trip(b"ABCDEF", b"GHIJKL", 3), b"GHIJKL".to_vec());
}

#[test]
fn round_trip_partial_overlap_with_shift() {
    assert_eq!(round_trip(b"ZY ABCDEF ", b"ABCDxEF Z", 3), b"ABCDxEF Z".to_vec());
}

#[test]
fn round_trip_oversized_chunk() {
    assert_eq!(round_trip(b"ZY ABCDEF ", b"ABCDxEF Z", 100), b"ABCDxEF Z".to_vec());
}

#[test]
fn round_trip_empty_files() {
    assert_eq!(round_trip(b"", b"", 4), Vec::<u8>::new());
    assert_eq!(round_trip(b"", b"abc", 2), b"abc".to_vec());
    assert_eq!(round_trip(b"abc", b"", 2), Vec::<u8>::new());
}

#[test]
fn round_trip_chunk_size_one() {
    assert_eq!(round_trip(b"abcabc", b"cabbage", 1), b"cabbage".to_vec());
}

fn lcg_next(state: &mut u64) -> u64 {
    *state = state
        .wrapping_mul(6364136223846793005)
        .wrapping_add(1442695040888963407);
    *state
}

fn lcg_bytes(state: &mut u64, len: usize) -> Vec<u8> {
    (0..len).map(|_| (lcg_next(state) >> 32) as u8).collect()
}

#[test]
fn round_trip_random_files() {
    let mut state: u64 = 42;
    for &chunk_size in &[1usize, 2, 3, 5, 8, 13, 31, 64] {
        let basis_len = (lcg_next(&mut state) % 200) as usize;
        let basis = lcg_bytes(&mut state, basis_len);

        // an edited copy of the basis: a slice moved, bytes injected
        let mut updated = Vec::new();
        updated.extend_from_slice(&basis[basis_len / 2..]);
        let injected_len = (lcg_next(&mut state) % 30) as usize;
        updated.extend(lcg_bytes(&mut state, injected_len));
        updated.extend_from_slice(&basis[..basis_len / 2]);

        assert_eq!(round_trip(&basis, &updated, chunk_size), updated);

        // and a completely unrelated file
        let other_len = (lcg_next(&mut state) % 100) as usize;
        let other = lcg_bytes(&mut state, other_len);
        assert_eq!(round_trip(&basis, &other, chunk_size), other);
    }
}

#[test]
fn commands_round_trip_through_serialized_artifacts() {
    let basis = b"the quick brown fox jumps over the lazy dog";
    let updated = b"the quick brown cat jumps over the lazy dog twice";
    let chunk_size = 4;

    let signature_bytes = handle_signature_command(basis, chunk_size);
    let delta_bytes = handle_delta_command(&signature_bytes, updated, chunk_size).unwrap();
    let recreated = handle_patch_command(basis, &delta_bytes, chunk_size).unwrap();

    assert_eq!(recreated, updated.to_vec());
}

#[test]
fn delta_command_rejects_a_malformed_signature() {
    let result = handle_delta_command(b"not a signature", b"payload", 3);
    assert!(result.is_err());
}

#[test]
fn patch_command_rejects_a_malformed_delta() {
    assert_eq!(
        handle_patch_command(b"basis", b"not a delta", 3),
        Err(PatchError::MalformedDelta)
    );
}

#[test]
fn patch_command_rejects_an_out_of_range_block() {
    // "abcdef" with chunk size 3 has blocks 0 and 1 only.
    let rogue = Delta {
        content: vec![Token::BlockIndex(7)],
    };
    let delta_bytes = rogue.to_bytes();
    assert_eq!(
        handle_patch_command(b"abcdef", &delta_bytes, 3),
        Err(PatchError::BlockIndexOutOfRange)
    );
}

#[test]
fn strong_hash_is_a_function_of_the_bytes() {
    assert_eq!(calculate_strong_hash(b"ABCDEFGH"), calculate_strong_hash(b"ABCDEFGH"));
    assert_ne!(calculate_strong_hash(b"ABCDEFGH"), calculate_strong_hash(b"AB"));
    assert_ne!(calculate_strong_hash(b""), calculate_strong_hash(b"\0"));
}

#[test]
fn signatures_accept_arbitrary_bytes() {
    // hashes operate on raw bytes: non-UTF-8 content is fine
    let basis: Vec<u8> = (0..=255u8).rev().collect();
    let mut updated = basis.clone();
    updated[128] = 7;
    assert_eq!(round_trip(&basis, &updated, 16), updated);
}
