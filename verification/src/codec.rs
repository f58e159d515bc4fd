//! The archive container: its binary layout, and the symmetric
//! encode / decode transforms over in-memory byte buffers.
//!
//! Layout of the raw (pre-compression) buffer, all integers little-endian:
//! a 4-byte entry count; one metadata record per entry (1-byte path length,
//! the path bytes, 1-byte asset-type wire code); then one payload block per
//! entry in the same order (4-byte length, the raw bytes).

use vstd::prelude::*;
use crate::asset::AssetType;

verus! {

/// One asset's metadata: its archive path (forward-slash separated, relative
/// to the packed root, at most 255 bytes on the wire) and its type.
#[derive(Debug)]
pub struct AssetEntry {
    pub path: Vec<u8>,
    pub ty: AssetType,
}

/// The mathematical model of one entry.
pub ghost struct EntryModel {
    pub path: Seq<u8>,
    pub ty: AssetType,
}

impl View for AssetEntry {
    type V = EntryModel;

    open spec fn view(&self) -> EntryModel {
        EntryModel { path: self.path@, ty: self.ty }
    }
}

/// A fully decoded archive: entries and their payloads, paired by position.
#[derive(Debug)]
pub struct Archive {
    pub entries: Vec<AssetEntry>,
    pub payloads: Vec<Vec<u8>>,
}

/// Why a raw buffer failed to decode.
#[derive(Clone, Copy, Debug, PartialEq, Eq, Structural)]
pub enum DecodeError {
    /// The buffer ends before the entry count or a metadata record is complete.
    TruncatedHeader,
    /// The buffer ends before a payload block is complete.
    TruncatedPayload,
    /// An entry's path bytes are not valid UTF-8.
    InvalidPath,
    /// The compressed wrapping could not be undone.
    CorruptArchive,
}

/// Why a list of entries failed to encode.
#[derive(Clone, Copy, Debug, PartialEq, Eq, Structural)]
pub enum EncodeError {
    /// An entry's path is longer than the 255 bytes its length byte can carry.
    PathTooLong,
}

/// The models of a vector of entries, in order.
pub open spec fn entry_models(s: Seq<AssetEntry>) -> Seq<EntryModel> {
    Seq::new(s.len(), |i: int| s[i]@)
}

/// The byte sequences held by a vector of byte buffers, in order.
pub open spec fn byte_views(s: Seq<Vec<u8>>) -> Seq<Seq<u8>> {
    Seq::new(s.len(), |i: int| s[i]@)
}

/// The four little-endian bytes of a 32-bit value.
pub open spec fn le32_bytes(v: nat) -> Seq<u8> {
    seq![
        (v % 256) as u8,
        ((v / 256) % 256) as u8,
        ((v / 65536) % 256) as u8,
        ((v / 16777216) % 256) as u8,
    ]
}

/// The 32-bit value four little-endian bytes carry.
pub open spec fn le32_value(b0: u8, b1: u8, b2: u8, b3: u8) -> nat {
    (b0 + b1 * 0x100 + b2 * 0x10000 + b3 * 0x1000000) as nat
}

/// Reading back the four bytes of a 32-bit value gives the value.
pub proof fn lemma_le32_round_trip(v: nat)
    requires
        v < 0x100000000,
    ensures
        le32_value(le32_bytes(v)[0], le32_bytes(v)[1], le32_bytes(v)[2], le32_bytes(v)[3]) == v,
{
    let d1 = v / 256;
    let d2 = v / 65536;
    let d3 = v / 16777216;
    vstd::arithmetic::div_mod::lemma_fundamental_div_mod(v as int, 256);
    vstd::arithmetic::div_mod::lemma_div_denominator(v as int, 256, 256);
    vstd::arithmetic::div_mod::lemma_fundamental_div_mod(d1 as int, 256);
    vstd::arithmetic::div_mod::lemma_div_denominator(d1 as int, 256, 256);
    assert(d1 / 256 == d2);
    assert(d2 / 256 == d3) by {
        vstd::arithmetic::div_mod::lemma_div_denominator(v as int, 65536, 256);
    }
    vstd::arithmetic::div_mod::lemma_fundamental_div_mod(d2 as int, 256);
    assert(d3 < 256) by {
        vstd::arithmetic::div_mod::lemma_div_is_ordered(v as int, 0xffffffff, 16777216);
    }
    vstd::arithmetic::div_mod::lemma_small_mod(d3, 256);
}

/// The metadata record of one entry: length byte, path bytes, type code.
pub open spec fn meta_bytes(e: EntryModel) -> Seq<u8> {
    seq![e.path.len() as u8] + e.path + seq![e.ty.wire_code()]
}

/// The metadata block: every entry's record, in order.
pub open spec fn meta_section(es: Seq<EntryModel>) -> Seq<u8>
    decreases es.len(),
{
    if es.len() == 0 {
        Seq::empty()
    } else {
        meta_bytes(es[0]) + meta_section(es.skip(1))
    }
}

/// The payload block of one entry: 4-byte length, then the raw bytes.
pub open spec fn payload_block(p: Seq<u8>) -> Seq<u8> {
    le32_bytes(p.len()) + p
}

/// The payload section: every entry's payload block, in order.
pub open spec fn payload_section(ps: Seq<Seq<u8>>) -> Seq<u8>
    decreases ps.len(),
{
    if ps.len() == 0 {
        Seq::empty()
    } else {
        payload_block(ps[0]) + payload_section(ps.skip(1))
    }
}

/// The whole raw buffer an archive encodes to.
pub open spec fn encode_spec(es: Seq<EntryModel>, ps: Seq<Seq<u8>>) -> Seq<u8> {
    le32_bytes(es.len()) + meta_section(es) + payload_section(ps)
}

/// An entry that a well-formed archive can hold: the path fits its length
/// byte and is valid UTF-8, and the type is a real one.
pub open spec fn wf_entry(e: EntryModel) -> bool {
    &&& e.path.len() <= 255
    &&& vstd::utf8::valid_utf8(e.path)
    &&& e.ty != AssetType::Unknown
}

/// An archive that encodes losslessly: well-formed entries, one payload per
/// entry, and counts and payload lengths within the signed 32-bit fields.
pub open spec fn wf_archive(es: Seq<EntryModel>, ps: Seq<Seq<u8>>) -> bool {
    &&& es.len() == ps.len()
    &&& es.len() <= 0x7fffffff
    &&& forall|i: int| 0 <= i < es.len() ==> wf_entry(es[i])
    &&& forall|i: int| 0 <= i < ps.len() ==> #[trigger] ps[i].len() <= 0x7fffffff
}

/// The number of entries a count field announces. The field is signed on the
/// wire and read through a `0..count` loop, so any value with the sign bit
/// set reads as no entries at all.
pub open spec fn announced_entries(raw: nat) -> nat {
    if raw >= 0x80000000 {
        0
    } else {
        raw
    }
}

/// Parses `n` metadata records from `b` starting at `off`; gives the entries
/// and the offset just past them.
pub open spec fn parse_meta(b: Seq<u8>, off: int, n: nat) -> Result<(Seq<EntryModel>, int), DecodeError>
    decreases n,
{
    if n == 0 {
        Ok((Seq::empty(), off))
    } else if off + 1 > b.len() {
        Err(DecodeError::TruncatedHeader)
    } else {
        let plen = b[off] as int;
        if off + 1 + plen + 1 > b.len() {
            Err(DecodeError::TruncatedHeader)
        } else {
            let path = b.subrange(off + 1, off + 1 + plen);
            if !vstd::utf8::valid_utf8(path) {
                Err(DecodeError::InvalidPath)
            } else {
                let e = EntryModel { path, ty: AssetType::spec_from_wire(b[off + 1 + plen]) };
                match parse_meta(b, off + 1 + plen + 1, (n - 1) as nat) {
                    Ok((rest, end)) => Ok((seq![e] + rest, end)),
                    Err(err) => Err(err),
                }
            }
        }
    }
}

/// Parses `n` payload blocks from `b` starting at `off`.
pub open spec fn parse_payloads(b: Seq<u8>, off: int, n: nat) -> Result<(Seq<Seq<u8>>, int), DecodeError>
    decreases n,
{
    if n == 0 {
        Ok((Seq::empty(), off))
    } else if off + 4 > b.len() {
        Err(DecodeError::TruncatedPayload)
    } else {
        let plen = le32_value(b[off], b[off + 1], b[off + 2], b[off + 3]) as int;
        if off + 4 + plen > b.len() {
            Err(DecodeError::TruncatedPayload)
        } else {
            let p = b.subrange(off + 4, off + 4 + plen);
            match parse_payloads(b, off + 4 + plen, (n - 1) as nat) {
                Ok((rest, end)) => Ok((seq![p] + rest, end)),
                Err(err) => Err(err),
            }
        }
    }
}

/// What a full decode of a raw buffer yields: the entries and their payloads,
/// or the first structured failure.
pub open spec fn decode_spec(b: Seq<u8>) -> Result<(Seq<EntryModel>, Seq<Seq<u8>>), DecodeError> {
    if b.len() < 4 {
        Err(DecodeError::TruncatedHeader)
    } else {
        let n = announced_entries(le32_value(b[0], b[1], b[2], b[3]));
        match parse_meta(b, 4, n) {
            Err(e) => Err(e),
            Ok((es, off)) => match parse_payloads(b, off, n) {
                Err(e) => Err(e),
                Ok((ps, _)) => Ok((es, ps)),
            },
        }
    }
}

/// What a metadata-only decode yields: the entries alone, read from the
/// same records the full decode reads.
pub open spec fn decode_meta_spec(b: Seq<u8>) -> Result<Seq<EntryModel>, DecodeError> {
    if b.len() < 4 {
        Err(DecodeError::TruncatedHeader)
    } else {
        let n = announced_entries(le32_value(b[0], b[1], b[2], b[3]));
        match parse_meta(b, 4, n) {
            Err(e) => Err(e),
            Ok((es, _)) => Ok(es),
        }
    }
}

/// Appending an entry appends its record to the metadata block.
pub proof fn lemma_meta_section_snoc(es: Seq<EntryModel>, e: EntryModel)
    ensures
        meta_section(es.push(e)) == meta_section(es) + meta_bytes(e),
    decreases es.len(),
{
    if es.len() == 0 {
        assert(es.push(e)[0] == e);
        assert(es.push(e).skip(1) =~= Seq::<EntryModel>::empty());
        assert(meta_section(Seq::<EntryModel>::empty()) == Seq::<u8>::empty());
        assert(meta_section(es.push(e)) == meta_bytes(e) + Seq::<u8>::empty());
        assert(meta_bytes(e) + Seq::<u8>::empty() =~= Seq::<u8>::empty() + meta_bytes(e));
    } else {
        assert(es.push(e)[0] == es[0]);
        assert(es.push(e).skip(1) =~= es.skip(1).push(e));
        lemma_meta_section_snoc(es.skip(1), e);
        assert(meta_section(es.push(e)) == meta_bytes(es[0]) + (meta_section(es.skip(1))
            + meta_bytes(e)));
        assert(meta_bytes(es[0]) + (meta_section(es.skip(1)) + meta_bytes(e)) =~= (meta_bytes(
            es[0],
        ) + meta_section(es.skip(1))) + meta_bytes(e));
    }
}

/// Appending a payload appends its block to the payload section.
pub proof fn lemma_payload_section_snoc(ps: Seq<Seq<u8>>, p: Seq<u8>)
    ensures
        payload_section(ps.push(p)) == payload_section(ps) + payload_block(p),
    decreases ps.len(),
{
    if ps.len() == 0 {
        assert(ps.push(p)[0] == p);
        assert(ps.push(p).skip(1) =~= Seq::<Seq<u8>>::empty());
        assert(payload_section(Seq::<Seq<u8>>::empty()) == Seq::<u8>::empty());
        assert(payload_section(ps.push(p)) == payload_block(p) + Seq::<u8>::empty());
        assert(payload_block(p) + Seq::<u8>::empty() =~= Seq::<u8>::empty() + payload_block(p));
    } else {
        assert(ps.push(p)[0] == ps[0]);
        assert(ps.push(p).skip(1) =~= ps.skip(1).push(p));
        lemma_payload_section_snoc(ps.skip(1), p);
        assert(payload_section(ps.push(p)) == payload_block(ps[0]) + (payload_section(ps.skip(1))
            + payload_block(p)));
        assert(payload_block(ps[0]) + (payload_section(ps.skip(1)) + payload_block(p)) =~= (
        payload_block(ps[0]) + payload_section(ps.skip(1))) + payload_block(p));
    }
}

/// Appends all of `src` to `out`.
fn push_bytes(out: &mut Vec<u8>, src: &Vec<u8>)
    ensures
        final(out)@ == old(out)@ + src@,
{
    let n = src.len();
    for i in 0..n
        invariant
            n == src@.len(),
            out@ =~= old(out)@ + src@.take(i as int),
    {
        out.push(src[i]);
        assert(out@ =~= old(out)@ + src@.take(i + 1));
    }
    assert(out@ =~= old(out)@ + src@);
}

/// Appends the four little-endian bytes of `v` to `out`.
fn push_le32(out: &mut Vec<u8>, v: usize)
    requires
        v < 0x100000000,
    ensures
        final(out)@ == old(out)@ + le32_bytes(v as nat),
{
    out.push((v % 256) as u8);
    out.push(((v / 256) % 256) as u8);
    out.push(((v / 65536) % 256) as u8);
    out.push(((v / 16777216) % 256) as u8);
    assert(out@ =~= old(out)@ + le32_bytes(v as nat));
}

/// Encodes entries and their payloads, paired by position, into one raw
/// buffer: the entry count, the metadata block, then the payload section in
/// the same order. Fails with `PathTooLong`, and yields no buffer, exactly
/// when some path is longer than 255 bytes.
pub fn encode(entries: &Vec<AssetEntry>, payloads: &Vec<Vec<u8>>) -> (r: Result<Vec<u8>, EncodeError>)
    requires
        entries@.len() == payloads@.len(),
        entries@.len() <= 0x7fffffff,
        forall|i: int| 0 <= i < payloads@.len() ==> #[trigger] payloads@[i]@.len() <= 0x7fffffff,
    ensures
        r matches Ok(buf) ==> buf@ == encode_spec(entry_models(entries@), byte_views(payloads@)),
        (r matches Err(e) && e == EncodeError::PathTooLong) <==> exists|i: int|
            0 <= i < entries@.len() && #[trigger] entries@[i]@.path.len() > 255,
{
    let ghost models = entry_models(entries@);
    let ghost views = byte_views(payloads@);
    let mut out: Vec<u8> = Vec::new();
    let count = entries.len();
    push_le32(&mut out, count);
    let n = entries.len();
    for i in 0..n
        invariant
            n == entries@.len() == payloads@.len() <= 0x7fffffff,
            models == entry_models(entries@),
            out@ == le32_bytes(n as nat) + meta_section(models.take(i as int)),
            forall|k: int| 0 <= k < i ==> #[trigger] models[k].path.len() <= 255,
    {
        let e = &entries[i];
        if e.path.len() > 255 {
            assert(entries@[i as int]@.path.len() > 255);
            return Err(EncodeError::PathTooLong);
        }
        out.push(e.path.len() as u8);
        push_bytes(&mut out, &e.path);
        out.push(e.ty.to_wire());
        proof {
            lemma_meta_section_snoc(models.take(i as int), models[i as int]);
            assert(models.take(i + 1) =~= models.take(i as int).push(models[i as int]));
            assert(out@ =~= le32_bytes(n as nat) + meta_section(models.take(i + 1)));
        }
    }
    proof {
        assert(models.take(n as int) =~= models);
        assert forall|k: int| 0 <= k < entries@.len() implies #[trigger] entries@[k]@.path.len()
            <= 255 by {
            assert(models[k] == entries@[k]@);
            assert(models[k].path.len() <= 255);
        }
    }
    for i in 0..n
        invariant
            n == entries@.len() == payloads@.len(),
            views == byte_views(payloads@),
            forall|k: int| 0 <= k < n ==> #[trigger] views[k].len() <= 0x7fffffff,
            out@ == le32_bytes(n as nat) + meta_section(models) + payload_section(views.take(i as int)),
    {
        let p = &payloads[i];
        push_le32(&mut out, p.len());
        push_bytes(&mut out, p);
        proof {
            lemma_payload_section_snoc(views.take(i as int), views[i as int]);
            assert(views.take(i + 1) =~= views.take(i as int).push(views[i as int]));
            assert(out@ =~= le32_bytes(n as nat) + meta_section(models) + payload_section(
                views.take(i + 1),
            ));
        }
    }
    proof {
        assert(views.take(n as int) =~= views);
        assert(out@ =~= encode_spec(models, views));
    }
    Ok(out)
}


/// Reads the little-endian 32-bit field at `off`.
fn read_le32(data: &[u8], off: usize) -> (r: u32)
    requires
        off + 4 <= data@.len(),
    ensures
        r as nat == le32_value(
            data@[off as int],
            data@[off as int + 1],
            data@[off as int + 2],
            data@[off as int + 3],
        ),
{
    let b0 = data[off] as u32;
    let b1 = data[off + 1] as u32;
    let b2 = data[off + 2] as u32;
    let b3 = data[off + 3] as u32;
    b0 + b1 * 0x100 + b2 * 0x10000 + b3 * 0x1000000
}

/// Reads `n` metadata records starting at offset 4, as `parse_meta` describes.
fn parse_entries(data: &[u8], n: usize) -> (r: Result<(Vec<AssetEntry>, usize), DecodeError>)
    requires
        4 <= data@.len(),
    ensures
        match r {
            Ok((es, end)) => parse_meta(data@, 4, n as nat) == Ok::<_, DecodeError>((
                entry_models(es@),
                end as int,
            )) && 4 <= end <= data@.len() && es@.len() == n,
            Err(e) => parse_meta(data@, 4, n as nat) == Err::<(Seq<EntryModel>, int), _>(e),
        },
{
    let ghost full = parse_meta(data@, 4, n as nat);
    let mut acc: Vec<AssetEntry> = Vec::new();
    let mut off: usize = 4;
    let dlen = data.len();
    for i in 0..n
        invariant
            dlen == data@.len(),
            4 <= off <= dlen,
            acc@.len() == i,
            full == parse_meta(data@, 4, n as nat),
            match parse_meta(data@, off as int, (n - i) as nat) {
                Ok(pr) => full == Ok::<_, DecodeError>((entry_models(acc@) + pr.0, pr.1)),
                Err(e) => full == Err::<(Seq<EntryModel>, int), _>(e),
            },
    {
        let ghost off0 = off as int;
        let ghost acc0 = acc@;
        if off >= data.len() {
            return Err(DecodeError::TruncatedHeader);
        }
        let plen = data[off] as usize;
        if plen + 1 > data.len() - off - 1 {
            return Err(DecodeError::TruncatedHeader);
        }
        let path_slice = vstd::slice::slice_subrange(data, off + 1, off + 1 + plen);
        if !crate::shim::utf8_check(path_slice) {
            return Err(DecodeError::InvalidPath);
        }
        let path = vstd::slice::slice_to_vec(path_slice);
        let ty = crate::asset::AssetType::from_wire(data[off + 1 + plen]);
        acc.push(AssetEntry { path, ty });
        off = off + 1 + plen + 1;
        proof {
            let m = EntryModel {
                path: data@.subrange(off0 + 1, off0 + 1 + plen as int),
                ty: crate::asset::AssetType::spec_from_wire(data@[off0 + 1 + plen as int]),
            };
            assert(acc@ =~= acc0.push(AssetEntry { path, ty }));
            assert(entry_models(acc@) =~= entry_models(acc0).push(m));
            match parse_meta(data@, off as int, (n - (i + 1)) as nat) {
                Ok(pr) => {
                    assert(entry_models(acc0).push(m) + pr.0 =~= entry_models(acc0) + (seq![m]
                        + pr.0));
                },
                Err(e) => {},
            }
        }
    }
    proof {
        assert(entry_models(acc@) + Seq::<EntryModel>::empty() =~= entry_models(acc@));
    }
    Ok((acc, off))
}

/// Reads `n` payload blocks starting at `off`, as `parse_payloads` describes.
fn parse_blocks(data: &[u8], off: usize, n: usize) -> (r: Result<Vec<Vec<u8>>, DecodeError>)
    requires
        off <= data@.len(),
    ensures
        match r {
            Ok(ps) => parse_payloads(data@, off as int, n as nat) matches Ok(pr) && pr.0
                == byte_views(ps@) && ps@.len() == n,
            Err(e) => parse_payloads(data@, off as int, n as nat) == Err::<(Seq<Seq<u8>>, int), _>(
                e,
            ),
        },
{
    let ghost full = parse_payloads(data@, off as int, n as nat);
    let mut acc: Vec<Vec<u8>> = Vec::new();
    let mut cur: usize = off;
    let dlen = data.len();
    for i in 0..n
        invariant
            dlen == data@.len(),
            off <= cur <= dlen,
            acc@.len() == i,
            full == parse_payloads(data@, off as int, n as nat),
            match parse_payloads(data@, cur as int, (n - i) as nat) {
                Ok(pr) => full == Ok::<_, DecodeError>((byte_views(acc@) + pr.0, pr.1)),
                Err(e) => full == Err::<(Seq<Seq<u8>>, int), _>(e),
            },
    {
        let ghost cur0 = cur as int;
        let ghost acc0 = acc@;
        if data.len() - cur < 4 {
            return Err(DecodeError::TruncatedPayload);
        }
        let plen32 = read_le32(data, cur);
        let plen = plen32 as usize;
        if plen > data.len() - (cur + 4) {
            return Err(DecodeError::TruncatedPayload);
        }
        let block = vstd::slice::slice_to_vec(
            vstd::slice::slice_subrange(data, cur + 4, cur + 4 + plen),
        );
        acc.push(block);
        cur = cur + 4 + plen;
        proof {
            let p = data@.subrange(cur0 + 4, cur0 + 4 + plen as int);
            assert(byte_views(acc@) =~= byte_views(acc0).push(p));
            match parse_payloads(data@, cur as int, (n - (i + 1)) as nat) {
                Ok(pr) => {
                    assert(byte_views(acc0).push(p) + pr.0 =~= byte_views(acc0) + (seq![p]
                        + pr.0));
                },
                Err(e) => {},
            }
        }
    }
    proof {
        assert(byte_views(acc@) + Seq::<Seq<u8>>::empty() =~= byte_views(acc@));
    }
    Ok(acc)
}

/// Decodes a raw buffer fully: the entries, each paired by position with its
/// payload, exactly as `decode_spec` describes — or that spec's structured
/// failure, never an out-of-range read.
pub fn decode(data: &[u8]) -> (r: Result<Archive, DecodeError>)
    ensures
        match r {
            Ok(a) => decode_spec(data@) == Ok::<_, DecodeError>((
                entry_models(a.entries@),
                byte_views(a.payloads@),
            )) && a.entries@.len() == a.payloads@.len(),
            Err(e) => decode_spec(data@) == Err::<(Seq<EntryModel>, Seq<Seq<u8>>), _>(e),
        },
{
    if data.len() < 4 {
        return Err(DecodeError::TruncatedHeader);
    }
    let raw = read_le32(data, 0);
    let n: usize = if raw >= 0x80000000 {
        0
    } else {
        raw as usize
    };
    assert(n as nat == announced_entries(
        le32_value(data@[0], data@[1], data@[2], data@[3]),
    ));
    match parse_entries(data, n) {
        Err(e) => Err(e),
        Ok((entries, end)) => match parse_blocks(data, end, n) {
            Err(e) => Err(e),
            Ok(payloads) => Ok(Archive { entries, payloads }),
        },
    }
}

/// Decodes only the metadata records, as the `list` operation does: the same
/// entries, in the same order, that a full decode would pair with payloads.
pub fn decode_metadata(data: &[u8]) -> (r: Result<Vec<AssetEntry>, DecodeError>)
    ensures
        match r {
            Ok(es) => decode_meta_spec(data@) == Ok::<_, DecodeError>(entry_models(es@)),
            Err(e) => decode_meta_spec(data@) == Err::<Seq<EntryModel>, _>(e),
        },
{
    if data.len() < 4 {
        return Err(DecodeError::TruncatedHeader);
    }
    let raw = read_le32(data, 0);
    let n: usize = if raw >= 0x80000000 {
        0
    } else {
        raw as usize
    };
    assert(n as nat == announced_entries(
        le32_value(data@[0], data@[1], data@[2], data@[3]),
    ));
    match parse_entries(data, n) {
        Err(e) => Err(e),
        Ok((entries, _)) => Ok(entries),
    }
}


/// A buffer that holds the metadata block of well-formed entries at `off`
/// parses back to exactly those entries.
proof fn lemma_parse_meta_section(b: Seq<u8>, off: int, es: Seq<EntryModel>)
    requires
        0 <= off,
        off + meta_section(es).len() <= b.len(),
        b.subrange(off, off + meta_section(es).len() as int) == meta_section(es),
        forall|i: int| 0 <= i < es.len() ==> wf_entry(#[trigger] es[i]),
    ensures
        parse_meta(b, off, es.len()) == Ok::<_, DecodeError>((
            es,
            off + meta_section(es).len(),
        )),
    decreases es.len(),
{
    let sec = meta_section(es);
    assert forall|k: int| 0 <= k < sec.len() implies b[off + k] == sec[k] by {
        assert(b.subrange(off, off + sec.len() as int)[k] == sec[k]);
    }
    if es.len() == 0 {
        assert(Seq::<EntryModel>::empty() =~= es);
    } else {
        let e0 = es[0];
        let m0 = meta_bytes(e0);
        let rest = es.skip(1);
        assert(sec == m0 + meta_section(rest));
        let l0 = m0.len() as int;
        assert(l0 == 2 + e0.path.len());
        assert(b[off] == sec[0]);
        assert(sec[0] == m0[0]);
        assert(m0[0] == e0.path.len() as u8);
        let plen = e0.path.len() as int;
        assert(b[off] as int == plen);
        assert(off + 1 + plen + 1 <= b.len());
        assert(b.subrange(off + 1, off + 1 + plen) =~= e0.path) by {
            assert forall|k: int| 0 <= k < plen implies b[off + 1 + k] == e0.path[k] by {
                assert(b[off + 1 + k] == sec[1 + k]);
                assert(sec[1 + k] == m0[1 + k]);
                assert(m0[1 + k] == e0.path[k]);
            }
        }
        assert(b[off + 1 + plen] == sec[1 + plen]);
        assert(sec[1 + plen] == m0[1 + plen]);
        assert(m0[1 + plen] == e0.ty.wire_code());
        e0.ty.lemma_wire_round_trip();
        let off2 = off + l0;
        let rsec = meta_section(rest);
        assert(b.subrange(off2, off2 + rsec.len() as int) =~= rsec) by {
            assert forall|k: int| 0 <= k < rsec.len() implies b[off2 + k] == rsec[k] by {
                assert(b[off2 + k] == sec[l0 + k]);
                assert(sec[l0 + k] == rsec[k]);
            }
        }
        assert(forall|i: int| 0 <= i < rest.len() ==> wf_entry(#[trigger] rest[i]));
        lemma_parse_meta_section(b, off2, rest);
        assert(seq![e0] + rest =~= es);
        assert(off2 + rsec.len() == off + sec.len());
    }
}

/// A buffer that holds the payload section of `ps` at `off` parses back to
/// exactly those payloads.
proof fn lemma_parse_payload_section(b: Seq<u8>, off: int, ps: Seq<Seq<u8>>)
    requires
        0 <= off,
        off + payload_section(ps).len() <= b.len(),
        b.subrange(off, off + payload_section(ps).len() as int) == payload_section(ps),
        forall|i: int| 0 <= i < ps.len() ==> #[trigger] ps[i].len() <= 0x7fffffff,
    ensures
        parse_payloads(b, off, ps.len()) == Ok::<_, DecodeError>((
            ps,
            off + payload_section(ps).len(),
        )),
    decreases ps.len(),
{
    let sec = payload_section(ps);
    assert forall|k: int| 0 <= k < sec.len() implies b[off + k] == sec[k] by {
        assert(b.subrange(off, off + sec.len() as int)[k] == sec[k]);
    }
    if ps.len() == 0 {
        assert(Seq::<Seq<u8>>::empty() =~= ps);
    } else {
        let p0 = ps[0];
        let b0 = payload_block(p0);
        let rest = ps.skip(1);
        assert(sec == b0 + payload_section(rest));
        let l0 = b0.len() as int;
        assert(l0 == 4 + p0.len());
        let lb = le32_bytes(p0.len());
        assert forall|k: int| 0 <= k < 4 implies b[off + k] == lb[k] by {
            assert(b[off + k] == sec[k]);
            assert(sec[k] == b0[k]);
            assert(b0[k] == lb[k]);
        }
        lemma_le32_round_trip(p0.len());
        assert(le32_value(b[off], b[off + 1], b[off + 2], b[off + 3]) == p0.len());
        let plen = p0.len() as int;
        assert(off + 4 + plen <= b.len());
        assert(b.subrange(off + 4, off + 4 + plen) =~= p0) by {
            assert forall|k: int| 0 <= k < plen implies b[off + 4 + k] == p0[k] by {
                assert(b[off + 4 + k] == sec[4 + k]);
                assert(sec[4 + k] == b0[4 + k]);
                assert(b0[4 + k] == p0[k]);
            }
        }
        let off2 = off + l0;
        let rsec = payload_section(rest);
        assert(b.subrange(off2, off2 + rsec.len() as int) =~= rsec) by {
            assert forall|k: int| 0 <= k < rsec.len() implies b[off2 + k] == rsec[k] by {
                assert(b[off2 + k] == sec[l0 + k]);
                assert(sec[l0 + k] == rsec[k]);
            }
        }
        lemma_parse_payload_section(b, off2, rest);
        assert(seq![p0] + rest =~= ps);
        assert(off2 + rsec.len() == off + sec.len());
    }
}

/// Decoding is the inverse of encoding: any well-formed archive comes back
/// from its encoded buffer with the same entries, the same payloads, and the
/// same order.
pub proof fn lemma_encode_decode_round_trip(es: Seq<EntryModel>, ps: Seq<Seq<u8>>)
    requires
        wf_archive(es, ps),
    ensures
        decode_spec(encode_spec(es, ps)) == Ok::<_, DecodeError>((es, ps)),
{
    let b = encode_spec(es, ps);
    let cb = le32_bytes(es.len());
    let ms = meta_section(es);
    let pss = payload_section(ps);
    assert(b == cb + ms + pss);
    assert(b.len() == 4 + ms.len() + pss.len());
    assert forall|k: int| 0 <= k < 4 implies b[k] == cb[k] by {
        assert(b[k] == (cb + ms)[k]);
    }
    lemma_le32_round_trip(es.len());
    assert(le32_value(b[0], b[1], b[2], b[3]) == es.len());
    assert(announced_entries(es.len()) == es.len());
    assert(b.subrange(4, 4 + ms.len() as int) =~= ms) by {
        assert forall|k: int| 0 <= k < ms.len() implies b[4 + k] == ms[k] by {
            assert(b[4 + k] == (cb + ms)[4 + k]);
        }
    }
    lemma_parse_meta_section(b, 4, es);
    let off2 = 4 + ms.len() as int;
    assert(b.subrange(off2, off2 + pss.len() as int) =~= pss) by {
        assert forall|k: int| 0 <= k < pss.len() implies b[off2 + k] == pss[k] by {
            assert((cb + ms).len() == off2);
            assert(b[off2 + k] == pss[off2 + k - off2]);
        }
    }
    lemma_parse_payload_section(b, off2, ps);
}

/// A metadata-only decode of any buffer yields exactly the entries of the
/// full decode, in the same order, whenever the full decode succeeds.
pub proof fn lemma_metadata_only_matches_full(b: Seq<u8>)
    ensures
        decode_spec(b) matches Ok(pr) ==> decode_meta_spec(b) == Ok::<_, DecodeError>(pr.0),
{
}


/// A buffer that ends partway through the payload section of `ps` fails to
/// parse with `TruncatedPayload`.
proof fn lemma_parse_payloads_truncated(b: Seq<u8>, off: int, ps: Seq<Seq<u8>>)
    requires
        0 <= off <= b.len(),
        b.len() < off + payload_section(ps).len(),
        b.subrange(off, b.len() as int) == payload_section(ps).take(b.len() - off),
        forall|i: int| 0 <= i < ps.len() ==> #[trigger] ps[i].len() <= 0x7fffffff,
    ensures
        parse_payloads(b, off, ps.len()) == Err::<(Seq<Seq<u8>>, int), _>(
            DecodeError::TruncatedPayload,
        ),
    decreases ps.len(),
{
    let sec = payload_section(ps);
    let avail = b.len() - off;
    assert(ps.len() > 0);
    assert forall|k: int| 0 <= k < avail implies b[off + k] == sec[k] by {
        assert(b.subrange(off, b.len() as int)[k] == sec.take(avail)[k]);
    }
    if off + 4 > b.len() {
    } else {
        let p0 = ps[0];
        let b0 = payload_block(p0);
        let rest = ps.skip(1);
        assert(sec == b0 + payload_section(rest));
        let lb = le32_bytes(p0.len());
        assert forall|k: int| 0 <= k < 4 implies b[off + k] == lb[k] by {
            assert(b[off + k] == sec[k]);
            assert(sec[k] == b0[k]);
            assert(b0[k] == lb[k]);
        }
        lemma_le32_round_trip(p0.len());
        assert(le32_value(b[off], b[off + 1], b[off + 2], b[off + 3]) == p0.len());
        let plen = p0.len() as int;
        if off + 4 + plen > b.len() {
        } else {
            let off2 = off + 4 + plen;
            let rsec = payload_section(rest);
            assert(b0.len() == 4 + plen);
            assert(b.len() < off2 + rsec.len());
            assert(b.subrange(off2, b.len() as int) =~= rsec.take(b.len() - off2)) by {
                assert forall|k: int| 0 <= k < b.len() - off2 implies b[off2 + k] == rsec[k] by {
                    assert(b[off2 + k] == sec[4 + plen + k]);
                    assert(sec[4 + plen + k] == rsec[k]);
                }
            }
            lemma_parse_payloads_truncated(b, off2, rest);
        }
    }
}

/// Truncation safety: cutting an encoded archive anywhere inside its payload
/// section makes the decode fail with `TruncatedPayload` — never a read past
/// the end, never a silently shortened archive.
pub proof fn lemma_truncated_payload_detected(es: Seq<EntryModel>, ps: Seq<Seq<u8>>, n: int)
    requires
        wf_archive(es, ps),
        4 + meta_section(es).len() <= n < encode_spec(es, ps).len(),
    ensures
        decode_spec(encode_spec(es, ps).take(n)) == Err::<(Seq<EntryModel>, Seq<Seq<u8>>), _>(
            DecodeError::TruncatedPayload,
        ),
{
    let b = encode_spec(es, ps);
    let t = b.take(n);
    let cb = le32_bytes(es.len());
    let ms = meta_section(es);
    let pss = payload_section(ps);
    assert(b == cb + ms + pss);
    assert(b.len() == 4 + ms.len() + pss.len());
    assert forall|k: int| 0 <= k < n implies t[k] == b[k] by {}
    assert forall|k: int| 0 <= k < 4 implies t[k] == cb[k] by {
        assert(b[k] == (cb + ms)[k]);
    }
    lemma_le32_round_trip(es.len());
    assert(le32_value(t[0], t[1], t[2], t[3]) == es.len());
    assert(announced_entries(es.len()) == es.len());
    assert(t.subrange(4, 4 + ms.len() as int) =~= ms) by {
        assert forall|k: int| 0 <= k < ms.len() implies t[4 + k] == ms[k] by {
            assert(b[4 + k] == (cb + ms)[4 + k]);
        }
    }
    lemma_parse_meta_section(t, 4, es);
    let off2 = 4 + ms.len() as int;
    assert(t.len() < off2 + pss.len());
    assert(t.subrange(off2, t.len() as int) =~= pss.take(t.len() - off2)) by {
        assert forall|k: int| 0 <= k < t.len() - off2 implies t[off2 + k] == pss[k] by {
            assert((cb + ms).len() == off2);
            assert(b[off2 + k] == pss[off2 + k - off2]);
        }
    }
    lemma_parse_payloads_truncated(t, off2, ps);
}

} // verus!
