//! Asset types and the rules that assign one to a file name.

use vstd::prelude::*;

verus! {

/// The semantic type of one archived asset. Each variant but `Unknown` has a
/// stable one-byte wire code; `Unknown` marks files that the archiver skips
/// and decodes from any unrecognized wire code.
#[derive(Clone, Copy, Debug, PartialEq, Eq, Structural)]
pub enum AssetType {
    Box,
    Object,
    GameMap,
    HeightMap,
    Path,
    Animation,
    CarProperty,
    Model,
    Texture,
    Unknown,
}

impl AssetType {
    /// The one-byte code this type takes on the wire; `Unknown` is written as 255,
    /// a code that never appears in a well-formed archive.
    pub open spec fn wire_code(self) -> u8 {
        match self {
            AssetType::Box => 0,
            AssetType::Object => 1,
            AssetType::GameMap => 2,
            AssetType::HeightMap => 3,
            AssetType::Path => 4,
            AssetType::Animation => 5,
            AssetType::CarProperty => 6,
            AssetType::Model => 7,
            AssetType::Texture => 10,
            AssetType::Unknown => 255,
        }
    }

    /// The type a wire code decodes to; unrecognized codes map to `Unknown`.
    pub open spec fn spec_from_wire(code: u8) -> AssetType {
        match code {
            0 => AssetType::Box,
            1 => AssetType::Object,
            2 => AssetType::GameMap,
            3 => AssetType::HeightMap,
            4 => AssetType::Path,
            5 => AssetType::Animation,
            6 => AssetType::CarProperty,
            7 => AssetType::Model,
            10 => AssetType::Texture,
            _ => AssetType::Unknown,
        }
    }

    pub fn to_wire(self) -> (code: u8)
        ensures
            code == self.wire_code(),
    {
        match self {
            AssetType::Box => 0,
            AssetType::Object => 1,
            AssetType::GameMap => 2,
            AssetType::HeightMap => 3,
            AssetType::Path => 4,
            AssetType::Animation => 5,
            AssetType::CarProperty => 6,
            AssetType::Model => 7,
            AssetType::Texture => 10,
            AssetType::Unknown => 255,
        }
    }

    pub fn from_wire(code: u8) -> (t: AssetType)
        ensures
            t == AssetType::spec_from_wire(code),
    {
        match code {
            0 => AssetType::Box,
            1 => AssetType::Object,
            2 => AssetType::GameMap,
            3 => AssetType::HeightMap,
            4 => AssetType::Path,
            5 => AssetType::Animation,
            6 => AssetType::CarProperty,
            7 => AssetType::Model,
            10 => AssetType::Texture,
            _ => AssetType::Unknown,
        }
    }

    /// Decoding the wire code of any type other than `Unknown` gives that type back.
    pub proof fn lemma_wire_round_trip(self)
        requires
            self != AssetType::Unknown,
        ensures
            AssetType::spec_from_wire(self.wire_code()) == self,
    {
    }

    /// A human-readable name for the type, as the `list` report prints it.
    pub fn display_name(self) -> (r: &'static str)
        ensures
            r@ == self.spec_display_name(),
    {
        match self {
            AssetType::Box => "Box",
            AssetType::Object => "Object",
            AssetType::GameMap => "Map",
            AssetType::HeightMap => "Height Map",
            AssetType::Path => "Path",
            AssetType::Animation => "Animation",
            AssetType::CarProperty => "Car Property",
            AssetType::Model => "Model",
            AssetType::Texture => "Texture",
            AssetType::Unknown => "Unknown",
        }
    }

    pub open spec fn spec_display_name(self) -> Seq<char> {
        match self {
            AssetType::Box => "Box"@,
            AssetType::Object => "Object"@,
            AssetType::GameMap => "Map"@,
            AssetType::HeightMap => "Height Map"@,
            AssetType::Path => "Path"@,
            AssetType::Animation => "Animation"@,
            AssetType::CarProperty => "Car Property"@,
            AssetType::Model => "Model"@,
            AssetType::Texture => "Texture"@,
            AssetType::Unknown => "Unknown"@,
        }
    }
}

/// ASCII lower-casing of one byte: letters `A`..`Z` gain 32, all else is unchanged.
pub open spec fn lower_byte(b: u8) -> u8 {
    if 65 <= b && b <= 90 {
        (b + 32) as u8
    } else {
        b
    }
}

/// ASCII lower-casing of a whole byte string.
pub open spec fn lower_seq(s: Seq<u8>) -> Seq<u8> {
    Seq::new(s.len(), |i: int| lower_byte(s[i]))
}

/// The bytes after the final `.` (byte 46), or `None` when the name has no `.`.
pub open spec fn ext_of(s: Seq<u8>) -> Option<Seq<u8>>
    decreases s.len(),
{
    if s.len() == 0 {
        None
    } else if s.last() == 46u8 {
        Some(Seq::empty())
    } else {
        match ext_of(s.drop_last()) {
            None => None,
            Some(e) => Some(e.push(s.last())),
        }
    }
}

/// The bytes of `"path.dat"`.
pub open spec fn name_path_dat() -> Seq<u8> {
    seq![112u8, 97u8, 116u8, 104u8, 46u8, 100u8, 97u8, 116u8]
}

/// The bytes of `"sky.obj"`.
pub open spec fn name_sky_obj() -> Seq<u8> {
    seq![115u8, 107u8, 121u8, 46u8, 111u8, 98u8, 106u8]
}

/// The bytes of `"heightmap.hmp"`.
pub open spec fn name_heightmap_hmp() -> Seq<u8> {
    seq![104u8, 101u8, 105u8, 103u8, 104u8, 116u8, 109u8, 97u8, 112u8, 46u8, 104u8, 109u8, 112u8]
}

/// The bytes of `"animate.dat"`.
pub open spec fn name_animate_dat() -> Seq<u8> {
    seq![97u8, 110u8, 105u8, 109u8, 97u8, 116u8, 101u8, 46u8, 100u8, 97u8, 116u8]
}

/// The bytes of `"carproperty.dat"`.
pub open spec fn name_carproperty_dat() -> Seq<u8> {
    seq![99u8, 97u8, 114u8, 112u8, 114u8, 111u8, 112u8, 101u8, 114u8, 116u8, 121u8, 46u8, 100u8, 97u8, 116u8]
}

/// The bytes of `"box"`.
pub open spec fn ext_box() -> Seq<u8> {
    seq![98u8, 111u8, 120u8]
}

/// The bytes of `"map"`.
pub open spec fn ext_map() -> Seq<u8> {
    seq![109u8, 97u8, 112u8]
}

/// The bytes of `"png"`.
pub open spec fn ext_png() -> Seq<u8> {
    seq![112u8, 110u8, 103u8]
}

/// The bytes of `"jpg"`.
pub open spec fn ext_jpg() -> Seq<u8> {
    seq![106u8, 112u8, 103u8]
}

/// The asset type a file name is given. Five whole names match first,
/// case-sensitively; otherwise the name is lower-cased and its extension
/// (the part after the final `.`) decides; anything else is `Unknown`.
pub open spec fn classify_spec(name: Seq<u8>) -> AssetType {
    if name == name_path_dat() {
        AssetType::Path
    } else if name == name_sky_obj() {
        AssetType::Object
    } else if name == name_heightmap_hmp() {
        AssetType::HeightMap
    } else if name == name_animate_dat() {
        AssetType::Animation
    } else if name == name_carproperty_dat() {
        AssetType::CarProperty
    } else {
        match ext_of(lower_seq(name)) {
            None => AssetType::Unknown,
            Some(e) => {
                if e == ext_box() {
                    AssetType::Box
                } else if e == ext_map() {
                    AssetType::GameMap
                } else if e == ext_png() || e == ext_jpg() {
                    AssetType::Texture
                } else {
                    AssetType::Unknown
                }
            },
        }
    }
}

/// A name with no `.` byte has no extension.
proof fn lemma_ext_of_none(s: Seq<u8>)
    requires
        forall|k: int| 0 <= k < s.len() ==> s[k] != 46u8,
    ensures
        ext_of(s) is None,
    decreases s.len(),
{
    if s.len() > 0 {
        lemma_ext_of_none(s.drop_last());
    }
}

/// When the final `.` sits just before index `i`, the extension is the tail from `i`.
proof fn lemma_ext_of_tail(s: Seq<u8>, i: int)
    requires
        1 <= i <= s.len(),
        s[i - 1] == 46u8,
        forall|k: int| i <= k < s.len() ==> s[k] != 46u8,
    ensures
        ext_of(s) == Some(s.subrange(i, s.len() as int)),
    decreases s.len() - i,
{
    if i == s.len() {
        assert(s.last() == 46u8);
        assert(s.subrange(i, s.len() as int) =~= Seq::<u8>::empty());
    } else {
        assert(s.last() != 46u8);
        let d = s.drop_last();
        assert(d[i - 1] == 46u8);
        lemma_ext_of_tail(d, i);
        assert(d.subrange(i, d.len() as int).push(s.last()) =~= s.subrange(i, s.len() as int));
    }
}

/// Whether two byte slices hold the same bytes.
fn bytes_eq(a: &[u8], b: &[u8]) -> (r: bool)
    ensures
        r == (a@ == b@),
{
    if a.len() != b.len() {
        assert(a@ != b@);
        return false;
    }
    let n = a.len();
    for i in 0..n
        invariant
            n == a@.len() == b@.len(),
            forall|k: int| 0 <= k < i ==> a@[k] == b@[k],
    {
        if a[i] != b[i] {
            return false;
        }
    }
    assert(a@ =~= b@);
    true
}

/// Whether the tail of `v` from `start` holds the same bytes as `b`.
fn tail_eq(v: &Vec<u8>, start: usize, b: &[u8]) -> (r: bool)
    requires
        start <= v@.len(),
    ensures
        r == (v@.subrange(start as int, v@.len() as int) == b@),
{
    let ghost tail = v@.subrange(start as int, v@.len() as int);
    if v.len() - start != b.len() {
        assert(tail != b@);
        return false;
    }
    let n = b.len();
    for i in 0..n
        invariant
            start + n == v@.len() <= usize::MAX,
            n == b@.len(),
            tail == v@.subrange(start as int, v@.len() as int),
            forall|k: int| 0 <= k < i ==> v@[start + k] == b@[k],
    {
        if v[start + i] != b[i] {
            assert(tail[i as int] != b@[i as int]);
            return false;
        }
    }
    assert(tail =~= b@);
    true
}

/// The ASCII lower-casing of a byte string.
fn to_lower(name: &[u8]) -> (r: Vec<u8>)
    ensures
        r@ == lower_seq(name@),
{
    let mut out: Vec<u8> = Vec::new();
    let n = name.len();
    for i in 0..n
        invariant
            n == name@.len(),
            out@ =~= lower_seq(name@).take(i as int),
    {
        let b = name[i];
        if 65 <= b && b <= 90 {
            out.push(b + 32);
        } else {
            out.push(b);
        }
        assert(out@ =~= lower_seq(name@).take(i + 1));
    }
    assert(out@ =~= lower_seq(name@));
    out
}

/// Assigns an asset type to one file name (the last component of a path),
/// by the two-tier rule of `classify_spec`: special whole names first, then
/// the case-insensitive extension.
pub fn classify(name: &[u8]) -> (t: AssetType)
    ensures
        t == classify_spec(name@),
{
    // "path.dat"
    if bytes_eq(name, &[112, 97, 116, 104, 46, 100, 97, 116]) {
        assert(name@ == name_path_dat());
        return AssetType::Path;
    }
    // "sky.obj"
    if bytes_eq(name, &[115, 107, 121, 46, 111, 98, 106]) {
        assert(name@ == name_sky_obj());
        return AssetType::Object;
    }
    // "heightmap.hmp"
    if bytes_eq(name, &[104, 101, 105, 103, 104, 116, 109, 97, 112, 46, 104, 109, 112]) {
        assert(name@ == name_heightmap_hmp());
        return AssetType::HeightMap;
    }
    // "animate.dat"
    if bytes_eq(name, &[97, 110, 105, 109, 97, 116, 101, 46, 100, 97, 116]) {
        assert(name@ == name_animate_dat());
        return AssetType::Animation;
    }
    // "carproperty.dat"
    if bytes_eq(name, &[99, 97, 114, 112, 114, 111, 112, 101, 114, 116, 121, 46, 100, 97, 116]) {
        assert(name@ == name_carproperty_dat());
        return AssetType::CarProperty;
    }
    let lower = to_lower(name);
    let mut i: usize = lower.len();
    while i > 0 && lower[i - 1] != 46
        invariant
            i <= lower@.len(),
            lower@ == lower_seq(name@),
            forall|k: int| i <= k < lower@.len() ==> lower@[k] != 46u8,
        decreases i,
    {
        i = i - 1;
    }
    if i == 0 {
        proof {
            lemma_ext_of_none(lower@);
        }
        return AssetType::Unknown;
    }
    proof {
        lemma_ext_of_tail(lower@, i as int);
    }
    // "box"
    if tail_eq(&lower, i, &[98, 111, 120]) {
        assert(ext_of(lower_seq(name@)) == Some(ext_box()));
        return AssetType::Box;
    }
    // "map"
    if tail_eq(&lower, i, &[109, 97, 112]) {
        assert(ext_of(lower_seq(name@)) == Some(ext_map()));
        return AssetType::GameMap;
    }
    // "png"
    if tail_eq(&lower, i, &[112, 110, 103]) {
        assert(ext_of(lower_seq(name@)) == Some(ext_png()));
        return AssetType::Texture;
    }
    // "jpg"
    if tail_eq(&lower, i, &[106, 112, 103]) {
        assert(ext_of(lower_seq(name@)) == Some(ext_jpg()));
        return AssetType::Texture;
    }
    AssetType::Unknown
}

} // verus!

