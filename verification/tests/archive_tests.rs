use prae::asset::AssetType;
use prae::codec::AssetEntry;
use prae::codec::DecodeError;
use prae::codec::EncodeError;
use prae::archive::list_archive;
use prae::archive::pack;
use prae::archive::unpack;
use prae::walk::route_paths;

fn entry(path: &[u8], ty: AssetType) -> AssetEntry {
    AssetEntry { path: path.to_vec(), ty }
}

#[test]
fn pack_then_unpack_reproduces_the_archive() {
    let entries = vec![
        entry(b"a.png", AssetType::Texture),
        entry(b"sub/b.box", AssetType::Box),
        entry(b"path.dat", AssetType::Path),
    ];
    let payloads = vec![vec![0x01, 0x02, 0x03], vec![0xAA, 0xBB], vec![]];
    let archive_bytes = pack(&entries, &payloads).unwrap();
    let archive = unpack(&archive_bytes).unwrap();
    assert_eq!(archive.entries.len(), 3);
    for i in 0..3 {
        assert_eq!(archive.entries[i].path, entries[i].path);
        assert_eq!(archive.entries[i].ty, entries[i].ty);
        assert_eq!(archive.payloads[i], payloads[i]);
    }
}

#[test]
fn list_matches_unpack() {
    let entries = vec![
        entry(b"t.jpg", AssetType::Texture),
        entry(b"heightmap.hmp", AssetType::HeightMap),
    ];
    let payloads = vec![vec![9], vec![8, 7]];
    let archive_bytes = pack(&entries, &payloads).unwrap();
    let full = unpack(&archive_bytes).unwrap();
    let listed = list_archive(&archive_bytes).unwrap();
    assert_eq!(listed.len(), full.entries.len());
    for i in 0..listed.len() {
        assert_eq!(listed[i].path, full.entries[i].path);
        assert_eq!(listed[i].ty, full.entries[i].ty);
    }
}

#[test]
fn pack_rejects_long_paths() {
    let long = entry(&[b'p'; 300], AssetType::Box);
    let r = pack(&vec![long], &vec![vec![]]);
    assert_eq!(r.unwrap_err(), EncodeError::PathTooLong);
}

#[test]
fn garbage_fails_as_corrupt() {
    // Not a valid deflate stream.
    let garbage = vec![0x01, 0x55, 0xAB, 0xFF, 0x00, 0x13];
    assert_eq!(unpack(&garbage).unwrap_err(), DecodeError::CorruptArchive);
    assert_eq!(list_archive(&garbage).unwrap_err(), DecodeError::CorruptArchive);
}

#[test]
fn routed_paths_put_every_texture_first() {
    let paths: Vec<Vec<u8>> = vec![
        b"sub/crate.box".to_vec(),
        b"a.png".to_vec(),
        b"notes.txt".to_vec(),
        b"deep/dir/b.JPG".to_vec(),
        b"level.map".to_vec(),
    ];
    let (textures, files) = route_paths(&paths);
    let texture_paths: Vec<&[u8]> = textures.iter().map(|e| e.path.as_slice()).collect();
    let file_paths: Vec<&[u8]> = files.iter().map(|e| e.path.as_slice()).collect();
    assert_eq!(texture_paths, vec![&b"a.png"[..], &b"deep/dir/b.JPG"[..]]);
    assert_eq!(file_paths, vec![&b"sub/crate.box"[..], &b"level.map"[..]]);
    assert!(textures.iter().all(|e| e.ty == AssetType::Texture));
    assert!(files
        .iter()
        .all(|e| e.ty != AssetType::Texture && e.ty != AssetType::Unknown));
}

#[test]
fn routed_special_name_wins_in_subdirectory() {
    // Classification looks at the file name only, not the directory part.
    let paths: Vec<Vec<u8>> = vec![b"cars/carproperty.dat".to_vec()];
    let (textures, files) = route_paths(&paths);
    assert_eq!(textures.len(), 0);
    assert_eq!(files.len(), 1);
    assert_eq!(files[0].ty, AssetType::CarProperty);
    assert_eq!(files[0].path, b"cars/carproperty.dat".to_vec());
}

#[test]
fn walk_to_archive_scenario() {
    // A directory with one texture and one box file packs to entryCount 2,
    // the texture first, and unpacks byte for byte.
    let paths: Vec<Vec<u8>> = vec![b"b.box".to_vec(), b"a.png".to_vec()];
    let (textures, files) = route_paths(&paths);
    let mut entries = textures;
    entries.extend(files);
    // Payloads in the same order as the combined entry list.
    let payloads = vec![vec![0x01, 0x02, 0x03], vec![0xAA, 0xBB]];
    let archive_bytes = pack(&entries, &payloads).unwrap();
    let archive = unpack(&archive_bytes).unwrap();
    assert_eq!(archive.entries.len(), 2);
    assert_eq!(archive.entries[0].path, b"a.png".to_vec());
    assert_eq!(archive.entries[0].ty, AssetType::Texture);
    assert_eq!(archive.payloads[0], vec![0x01, 0x02, 0x03]);
    assert_eq!(archive.entries[1].path, b"b.box".to_vec());
    assert_eq!(archive.entries[1].ty, AssetType::Box);
    assert_eq!(archive.payloads[1], vec![0xAA, 0xBB]);
}
