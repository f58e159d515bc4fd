use prae::asset::AssetType;
use prae::codec::AssetEntry;
use prae::codec::DecodeError;
use prae::codec::EncodeError;
use prae::codec::decode;
use prae::codec::decode_metadata;
use prae::codec::encode;

fn entry(path: &[u8], ty: AssetType) -> AssetEntry {
    AssetEntry { path: path.to_vec(), ty }
}

fn two_file_archive() -> (Vec<AssetEntry>, Vec<Vec<u8>>) {
    let entries = vec![
        entry(b"a.png", AssetType::Texture),
        entry(b"b.box", AssetType::Box),
    ];
    let payloads = vec![vec![0x01, 0x02, 0x03], vec![0xAA, 0xBB]];
    (entries, payloads)
}

#[test]
fn encode_two_files_exact_bytes() {
    let (entries, payloads) = two_file_archive();
    let raw = encode(&entries, &payloads).unwrap();
    let expected: Vec<u8> = vec![
        2, 0, 0, 0, // entry count
        5, b'a', b'.', b'p', b'n', b'g', 10, // first record: a.png, Texture
        5, b'b', b'.', b'b', b'o', b'x', 0, // second record: b.box, Box
        3, 0, 0, 0, 0x01, 0x02, 0x03, // first payload block
        2, 0, 0, 0, 0xAA, 0xBB, // second payload block
    ];
    assert_eq!(raw, expected);
}

#[test]
fn decode_reproduces_entries_and_payloads() {
    let (entries, payloads) = two_file_archive();
    let raw = encode(&entries, &payloads).unwrap();
    let archive = decode(&raw).unwrap();
    assert_eq!(archive.entries.len(), 2);
    assert_eq!(archive.payloads.len(), 2);
    for i in 0..2 {
        assert_eq!(archive.entries[i].path, entries[i].path);
        assert_eq!(archive.entries[i].ty, entries[i].ty);
        assert_eq!(archive.payloads[i], payloads[i]);
    }
}

#[test]
fn metadata_only_decode_matches_full_decode() {
    let (entries, payloads) = two_file_archive();
    let raw = encode(&entries, &payloads).unwrap();
    let full = decode(&raw).unwrap();
    let meta = decode_metadata(&raw).unwrap();
    assert_eq!(meta.len(), full.entries.len());
    for i in 0..meta.len() {
        assert_eq!(meta[i].path, full.entries[i].path);
        assert_eq!(meta[i].ty, full.entries[i].ty);
    }
}

#[test]
fn long_path_fails_to_encode() {
    let long = entry(&[b'a'; 256], AssetType::Box);
    let r = encode(&vec![long], &vec![vec![1]]);
    assert_eq!(r.unwrap_err(), EncodeError::PathTooLong);
    // The longest path that still fits encodes fine.
    let fits = entry(&[b'a'; 255], AssetType::Box);
    assert!(encode(&vec![fits], &vec![vec![1]]).is_ok());
}

#[test]
fn truncated_buffers_fail_structurally() {
    let (entries, payloads) = two_file_archive();
    let raw = encode(&entries, &payloads).unwrap();
    // Shorter than the count field.
    assert_eq!(decode(&raw[..3]).unwrap_err(), DecodeError::TruncatedHeader);
    assert_eq!(decode(&[]).unwrap_err(), DecodeError::TruncatedHeader);
    // Cut inside a metadata record.
    assert_eq!(decode(&raw[..6]).unwrap_err(), DecodeError::TruncatedHeader);
    // A count with no records behind it.
    assert_eq!(decode(&[5, 0, 0, 0]).unwrap_err(), DecodeError::TruncatedHeader);
    // Cut anywhere inside the payload section.
    let meta_end = 4 + 7 + 7;
    for n in meta_end..raw.len() {
        assert_eq!(
            decode(&raw[..n]).unwrap_err(),
            DecodeError::TruncatedPayload,
            "cut at {}",
            n
        );
    }
    // The metadata-only decode never touches the payload section.
    assert!(decode_metadata(&raw[..meta_end]).is_ok());
}

#[test]
fn invalid_utf8_path_is_rejected() {
    // One entry whose single path byte is not valid UTF-8.
    let raw = vec![1, 0, 0, 0, 1, 0xFF, 0, 1, 0, 0, 0, 7];
    assert_eq!(decode(&raw).unwrap_err(), DecodeError::InvalidPath);
    // The same record with an ASCII path byte decodes.
    let ok = vec![1, 0, 0, 0, 1, b'x', 0, 1, 0, 0, 0, 7];
    let archive = decode(&ok).unwrap();
    assert_eq!(archive.entries[0].path, b"x".to_vec());
    assert_eq!(archive.entries[0].ty, AssetType::Box);
    assert_eq!(archive.payloads[0], vec![7]);
}

#[test]
fn negative_count_reads_as_no_entries() {
    // The count field is signed; a negative count is read through an empty loop.
    let raw = vec![0xFF, 0xFF, 0xFF, 0xFF];
    let archive = decode(&raw).unwrap();
    assert_eq!(archive.entries.len(), 0);
    assert_eq!(archive.payloads.len(), 0);
}

#[test]
fn unknown_wire_code_decodes_to_unknown() {
    let raw = vec![1, 0, 0, 0, 1, b'x', 42, 0, 0, 0, 0];
    let archive = decode(&raw).unwrap();
    assert_eq!(archive.entries[0].ty, AssetType::Unknown);
}

#[test]
fn empty_archive_round_trips() {
    let raw = encode(&vec![], &vec![]).unwrap();
    assert_eq!(raw, vec![0, 0, 0, 0]);
    let archive = decode(&raw).unwrap();
    assert_eq!(archive.entries.len(), 0);
    assert_eq!(archive.payloads.len(), 0);
}

#[test]
fn empty_payload_round_trips() {
    let entries = vec![entry(b"level.map", AssetType::GameMap)];
    let payloads: Vec<Vec<u8>> = vec![vec![]];
    let raw = encode(&entries, &payloads).unwrap();
    let archive = decode(&raw).unwrap();
    assert_eq!(archive.entries[0].path, b"level.map".to_vec());
    assert_eq!(archive.payloads[0], Vec::<u8>::new());
}
