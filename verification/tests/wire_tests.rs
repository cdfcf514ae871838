use rsync_rust::delta::{Delta, Token};
use rsync_rust::signature::FileSignature;
use rsync_rust::wire::DecodeError;
use std::collections::BTreeMap;

#[test]
fn signature_serialization_round_trip() {
    // one value for every integer width the format distinguishes
    let signature = FileSignature {
        strong_hashes: vec![0, 5, 127, 128, 255, 256, 65535, 65536, 4294967295],
        rolling_hashes: vec![4294967296, u64::MAX, 1, 2, 3, 4, 5, 6, 7],
    };
    let bytes = signature.to_bytes();
    let decoded = FileSignature::from_bytes(&bytes).unwrap();
    assert_eq!(decoded, signature);
}

#[test]
fn delta_serialization_round_trip() {
    let delta = Delta {
        content: vec![
            Token::BlockIndex(0),
            Token::ByteLiteral(104),
            Token::BlockIndex(300),
            Token::ByteLiteral(0),
            Token::ByteLiteral(255),
            Token::BlockIndex(70000),
        ],
    };
    let bytes = delta.to_bytes();
    let decoded = Delta::from_bytes(&bytes).unwrap();
    assert_eq!(decoded, delta);
}

#[test]
fn empty_artifacts_round_trip() {
    let signature = FileSignature {
        strong_hashes: vec![],
        rolling_hashes: vec![],
    };
    assert_eq!(
        FileSignature::from_bytes(&signature.to_bytes()).unwrap(),
        signature
    );

    let delta = Delta { content: vec![] };
    assert_eq!(Delta::from_bytes(&delta.to_bytes()).unwrap(), delta);
}

#[test]
fn signature_bytes_decode_with_a_generic_reader() {
    // The artifact is ordinary tagged binary: an off-the-shelf decoder
    // reads it as a two-entry map of named integer arrays.
    let signature = FileSignature {
        strong_hashes: vec![1, 200, 70000, u64::MAX],
        rolling_hashes: vec![9, 8, 7, 6],
    };
    let bytes = signature.to_bytes();
    let generic: BTreeMap<String, Vec<u64>> = rmp_serde::from_slice(&bytes).unwrap();
    assert_eq!(generic["strong_hashes"], signature.strong_hashes);
    assert_eq!(generic["rolling_hashes"], signature.rolling_hashes);
}

#[test]
fn delta_bytes_match_a_reference_encoder() {
    // The same delta written by an off-the-shelf encoder of the format is
    // byte-for-byte what our encoder produces.
    let delta = Delta {
        content: vec![
            Token::BlockIndex(2),
            Token::ByteLiteral(104),
            Token::BlockIndex(40000),
        ],
    };
    let reference: BTreeMap<String, Vec<BTreeMap<String, u64>>> = {
        let mut token_maps = Vec::new();
        for token in &delta.content {
            let mut entry = BTreeMap::new();
            match token {
                Token::BlockIndex(k) => {
                    entry.insert("BlockIndex".to_string(), *k as u64);
                }
                Token::ByteLiteral(x) => {
                    entry.insert("ByteLiteral".to_string(), *x as u64);
                }
            }
            token_maps.push(entry);
        }
        let mut outer = BTreeMap::new();
        outer.insert("content".to_string(), token_maps);
        outer
    };
    let reference_bytes = rmp_serde::to_vec(&reference).unwrap();
    assert_eq!(delta.to_bytes(), reference_bytes);
}

#[test]
fn malformed_signature_is_refused() {
    assert_eq!(
        FileSignature::from_bytes(b"junk"),
        Err(DecodeError::Signature)
    );
    assert_eq!(FileSignature::from_bytes(b""), Err(DecodeError::Signature));
}

#[test]
fn malformed_delta_is_refused() {
    assert_eq!(Delta::from_bytes(b"junk"), Err(DecodeError::Delta));
    assert_eq!(Delta::from_bytes(b""), Err(DecodeError::Delta));
}

#[test]
fn artifacts_do_not_decode_as_each_other() {
    let signature = FileSignature {
        strong_hashes: vec![1],
        rolling_hashes: vec![2],
    };
    let delta = Delta {
        content: vec![Token::ByteLiteral(9)],
    };
    assert_eq!(
        FileSignature::from_bytes(&delta.to_bytes()),
        Err(DecodeError::Signature)
    );
    assert_eq!(
        Delta::from_bytes(&signature.to_bytes()),
        Err(DecodeError::Delta)
    );
}

#[test]
fn unequal_hash_arrays_are_a_decoding_error() {
    // The encoder is length-agnostic, but the decoder holds the two
    // arrays to walking in lock-step.
    let lopsided = FileSignature {
        strong_hashes: vec![1, 2],
        rolling_hashes: vec![3],
    };
    assert_eq!(
        FileSignature::from_bytes(&lopsided.to_bytes()),
        Err(DecodeError::Signature)
    );
}

#[test]
fn trailing_garbage_is_a_decoding_error() {
    let signature = FileSignature {
        strong_hashes: vec![1],
        rolling_hashes: vec![2],
    };
    let mut bytes = signature.to_bytes();
    bytes.push(0);
    assert_eq!(
        FileSignature::from_bytes(&bytes),
        Err(DecodeError::Signature)
    );

    let delta = Delta {
        content: vec![Token::ByteLiteral(1)],
    };
    let mut delta_bytes = delta.to_bytes();
    delta_bytes.push(0);
    assert_eq!(Delta::from_bytes(&delta_bytes), Err(DecodeError::Delta));
}
