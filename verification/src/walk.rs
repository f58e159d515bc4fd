//! Routing of discovered files: each relative path is classified by its file
//! name and sent to the texture list, the plain file list, or skipped.

use vstd::prelude::*;
use crate::asset::AssetType;
use crate::asset::classify;
use crate::asset::classify_spec;
use crate::codec::AssetEntry;
use crate::codec::EntryModel;
use crate::codec::byte_views;
use crate::codec::decode_spec;
use crate::codec::encode_spec;
use crate::codec::entry_models;
use crate::codec::lemma_encode_decode_round_trip;
use crate::codec::wf_archive;
use crate::codec::DecodeError;

verus! {

/// The file-name component of a `/`-separated path: the bytes after the
/// final `/` (byte 47), or the whole path when it has none.
pub open spec fn file_name_of(path: Seq<u8>) -> Seq<u8>
    decreases path.len(),
{
    if path.len() == 0 {
        Seq::empty()
    } else if path.last() == 47u8 {
        Seq::empty()
    } else {
        file_name_of(path.drop_last()).push(path.last())
    }
}

/// The type a whole relative path is routed by: its file name, classified.
pub open spec fn path_type(path: Seq<u8>) -> AssetType {
    classify_spec(file_name_of(path))
}

/// The entry a routed path becomes.
pub open spec fn entry_for(path: Seq<u8>) -> EntryModel {
    EntryModel { path, ty: path_type(path) }
}

/// The texture entries among `paths`, in discovery order.
pub open spec fn texture_entries(paths: Seq<Seq<u8>>) -> Seq<EntryModel>
    decreases paths.len(),
{
    if paths.len() == 0 {
        Seq::empty()
    } else {
        texture_entries(paths.drop_last()) + (if path_type(paths.last()) == AssetType::Texture {
            seq![entry_for(paths.last())]
        } else {
            Seq::empty()
        })
    }
}

/// The recognized non-texture entries among `paths`, in discovery order;
/// paths of `Unknown` type are skipped.
pub open spec fn other_entries(paths: Seq<Seq<u8>>) -> Seq<EntryModel>
    decreases paths.len(),
{
    if paths.len() == 0 {
        Seq::empty()
    } else {
        other_entries(paths.drop_last()) + (if path_type(paths.last()) != AssetType::Texture
            && path_type(paths.last()) != AssetType::Unknown {
            seq![entry_for(paths.last())]
        } else {
            Seq::empty()
        })
    }
}

/// When the final `/` sits just before index `i` (or the path has none and
/// `i` is 0), the file name is the tail from `i`.
proof fn lemma_file_name_tail(s: Seq<u8>, i: int)
    requires
        0 <= i <= s.len(),
        i == 0 || s[i - 1] == 47u8,
        forall|k: int| i <= k < s.len() ==> s[k] != 47u8,
    ensures
        file_name_of(s) == s.subrange(i, s.len() as int),
    decreases s.len() - i,
{
    if i == s.len() {
        assert(s.subrange(i, s.len() as int) =~= Seq::<u8>::empty());
    } else {
        assert(s.last() != 47u8);
        let d = s.drop_last();
        lemma_file_name_tail(d, i);
        assert(d.subrange(i, d.len() as int).push(s.last()) =~= s.subrange(i, s.len() as int));
    }
}

/// The file-name component of one path.
fn file_name(path: &Vec<u8>) -> (r: &[u8])
    ensures
        r@ == file_name_of(path@),
{
    let mut i: usize = path.len();
    while i > 0 && path[i - 1] != 47
        invariant
            i <= path@.len(),
            forall|k: int| i <= k < path@.len() ==> path@[k] != 47u8,
        decreases i,
    {
        i = i - 1;
    }
    proof {
        lemma_file_name_tail(path@, i as int);
    }
    vstd::slice::slice_subrange(path.as_slice(), i, path.len())
}

/// Routes the relative paths of one walk, in discovery order, into the two
/// lists the codec encodes: every texture first, then every other recognized
/// file; paths whose name classifies as `Unknown` appear in neither.
pub fn route_paths(paths: &Vec<Vec<u8>>) -> (r: (Vec<AssetEntry>, Vec<AssetEntry>))
    ensures
        entry_models(r.0@) == texture_entries(byte_views(paths@)),
        entry_models(r.1@) == other_entries(byte_views(paths@)),
{
    let ghost views = byte_views(paths@);
    let mut textures: Vec<AssetEntry> = Vec::new();
    let mut others: Vec<AssetEntry> = Vec::new();
    let n = paths.len();
    for j in 0..n
        invariant
            n == paths@.len(),
            views == byte_views(paths@),
            entry_models(textures@) == texture_entries(views.take(j as int)),
            entry_models(others@) == other_entries(views.take(j as int)),
    {
        let ghost textures0 = textures@;
        let ghost others0 = others@;
        let p = &paths[j];
        let ty = classify(file_name(p));
        assert(ty == path_type(views[j as int]));
        if matches!(ty, AssetType::Texture) {
            let path = vstd::slice::slice_to_vec(p.as_slice());
            textures.push(AssetEntry { path, ty });
            assert(entry_models(textures@) =~= entry_models(textures0).push(
                entry_for(views[j as int]),
            ));
        } else if !matches!(ty, AssetType::Unknown) {
            let path = vstd::slice::slice_to_vec(p.as_slice());
            others.push(AssetEntry { path, ty });
            assert(entry_models(others@) =~= entry_models(others0).push(
                entry_for(views[j as int]),
            ));
        }
        proof {
            assert(views.take(j + 1).drop_last() =~= views.take(j as int));
            assert(views.take(j + 1).last() == views[j as int]);
            assert(entry_models(textures@) =~= texture_entries(views.take(j + 1)));
            assert(entry_models(others@) =~= other_entries(views.take(j + 1)));
        }
    }
    proof {
        assert(views.take(n as int) =~= views);
    }
    (textures, others)
}

/// Every routed texture is a texture, every routed file is neither a texture
/// nor unknown, and each list keeps its paths in discovery order.
pub proof fn lemma_route_types(paths: Seq<Seq<u8>>)
    ensures
        forall|i: int| 0 <= i < texture_entries(paths).len() ==> #[trigger] texture_entries(
            paths,
        )[i].ty == AssetType::Texture,
        forall|i: int| 0 <= i < other_entries(paths).len() ==> #[trigger] other_entries(
            paths,
        )[i].ty != AssetType::Texture && other_entries(paths)[i].ty != AssetType::Unknown,
    decreases paths.len(),
{
    if paths.len() > 0 {
        lemma_route_types(paths.drop_last());
    }
}

/// The ordering invariant of the wire format: in the combined entry list an
/// archive encodes — all textures, then all other files — every texture's
/// index is less than every non-texture's index.
pub proof fn lemma_texture_ordering(paths: Seq<Seq<u8>>)
    ensures
        ({
            let all = texture_entries(paths) + other_entries(paths);
            forall|i: int, j: int|
                0 <= i < all.len() && 0 <= j < all.len() && #[trigger] all[i].ty
                    == AssetType::Texture && #[trigger] all[j].ty != AssetType::Texture ==> i < j
        }),
{
    lemma_route_types(paths);
    let ts = texture_entries(paths);
    let os = other_entries(paths);
    let all = ts + os;
    assert forall|i: int, j: int|
        0 <= i < all.len() && 0 <= j < all.len() && #[trigger] all[i].ty == AssetType::Texture
            && #[trigger] all[j].ty != AssetType::Texture implies i < j by {
        if i >= ts.len() {
            assert(all[i] == os[i - ts.len()]);
        }
        if j < ts.len() {
            assert(all[j] == ts[j]);
        }
    }
}

/// The ordering invariant on the wire: an archive encoded from routed paths
/// decodes to its entry list unchanged, and in that list every texture's
/// index is less than every non-texture's index; the decoded payloads mirror
/// the metadata order by position.
pub proof fn lemma_encoded_buffer_ordering(paths: Seq<Seq<u8>>, ps: Seq<Seq<u8>>)
    requires
        wf_archive(texture_entries(paths) + other_entries(paths), ps),
    ensures
        ({
            let all = texture_entries(paths) + other_entries(paths);
            decode_spec(encode_spec(all, ps)) == Ok::<_, DecodeError>((all, ps)) && forall|
                i: int,
                j: int,
            |
                0 <= i < all.len() && 0 <= j < all.len() && #[trigger] all[i].ty
                    == AssetType::Texture && #[trigger] all[j].ty != AssetType::Texture ==> i < j
        }),
{
    lemma_encode_decode_round_trip(texture_entries(paths) + other_entries(paths), ps);
    lemma_texture_ordering(paths);
}

} // verus!
