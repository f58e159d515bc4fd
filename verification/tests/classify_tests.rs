use prae::asset::AssetType;
use prae::asset::classify;

#[test]
fn special_names_take_precedence() {
    assert_eq!(classify(b"path.dat"), AssetType::Path);
    assert_eq!(classify(b"sky.obj"), AssetType::Object);
    assert_eq!(classify(b"heightmap.hmp"), AssetType::HeightMap);
    assert_eq!(classify(b"animate.dat"), AssetType::Animation);
    assert_eq!(classify(b"carproperty.dat"), AssetType::CarProperty);
}

#[test]
fn special_names_are_case_sensitive() {
    // "PATH.DAT" misses the special rule and ".dat" is no known extension.
    assert_eq!(classify(b"PATH.DAT"), AssetType::Unknown);
    // Any other ".dat" name is unknown too.
    assert_eq!(classify(b"other.dat"), AssetType::Unknown);
}

#[test]
fn extensions_are_case_insensitive() {
    assert_eq!(classify(b"FOO.PNG"), AssetType::Texture);
    assert_eq!(classify(b"photo.jpg"), AssetType::Texture);
    assert_eq!(classify(b"Photo.JpG"), AssetType::Texture);
    assert_eq!(classify(b"crate.BOX"), AssetType::Box);
    assert_eq!(classify(b"level.map"), AssetType::GameMap);
}

#[test]
fn unknown_extensions_and_missing_extensions() {
    assert_eq!(classify(b"x.unknownext"), AssetType::Unknown);
    assert_eq!(classify(b"noextension"), AssetType::Unknown);
    assert_eq!(classify(b""), AssetType::Unknown);
    // A trailing dot leaves an empty extension.
    assert_eq!(classify(b"file.box."), AssetType::Unknown);
    // Only the part after the final dot counts.
    assert_eq!(classify(b"a.png.txt"), AssetType::Unknown);
}

#[test]
fn wire_codes_round_trip() {
    let cases = [
        (AssetType::Box, 0u8),
        (AssetType::Object, 1),
        (AssetType::GameMap, 2),
        (AssetType::HeightMap, 3),
        (AssetType::Path, 4),
        (AssetType::Animation, 5),
        (AssetType::CarProperty, 6),
        (AssetType::Model, 7),
        (AssetType::Texture, 10),
    ];
    for (ty, code) in cases {
        assert_eq!(ty.to_wire(), code);
        assert_eq!(AssetType::from_wire(code), ty);
    }
    assert_eq!(AssetType::Unknown.to_wire(), 255);
    assert_eq!(AssetType::from_wire(255), AssetType::Unknown);
    // Unassigned codes decode to Unknown rather than failing.
    assert_eq!(AssetType::from_wire(8), AssetType::Unknown);
    assert_eq!(AssetType::from_wire(9), AssetType::Unknown);
    assert_eq!(AssetType::from_wire(11), AssetType::Unknown);
}

#[test]
fn display_names() {
    assert_eq!(AssetType::Box.display_name(), "Box");
    assert_eq!(AssetType::Object.display_name(), "Object");
    assert_eq!(AssetType::GameMap.display_name(), "Map");
    assert_eq!(AssetType::HeightMap.display_name(), "Height Map");
    assert_eq!(AssetType::Path.display_name(), "Path");
    assert_eq!(AssetType::Animation.display_name(), "Animation");
    assert_eq!(AssetType::CarProperty.display_name(), "Car Property");
    assert_eq!(AssetType::Model.display_name(), "Model");
    assert_eq!(AssetType::Texture.display_name(), "Texture");
    assert_eq!(AssetType::Unknown.display_name(), "Unknown");
}
