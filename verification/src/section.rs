//! The name section and its sub-sections: the tagged variant model, the
//! tag + length framing, and the codecs of the three known payloads.
//!
//! Wire layout of one section: a one-byte type tag, the payload's byte
//! length as a 32-bit varint, then the payload.  Tag 0 carries a module
//! name, tag 1 a function name map, tag 2 a local name table (a map of name
//! maps); any other tag is kept as verbatim bytes.

use vstd::prelude::*;

use crate::index_map::IndexMap;
use crate::index_map::NameMap;
use crate::index_map::keys_sorted;
use crate::varint::var_u32_dec;
use crate::varint::var_u32_enc;
use crate::DecodeError;
use crate::EncodeError;

verus! {

use vstd::utf8::decode_utf8;
use vstd::utf8::encode_utf8;
use vstd::utf8::valid_utf8;
use crate::varint::decode_var_u32;
use crate::varint::encode_var_u32;

/// The name of this module.
#[derive(Clone, Debug, PartialEq)]
pub struct ModuleNameSection {
    /// The module's own declared name.
    pub name: String,
}

/// The names of the functions in this module.
#[derive(Clone, Debug, PartialEq)]
pub struct FunctionNameSection {
    /// A map from function indices to names.
    pub names: NameMap,
}

/// The names of the local variables in this module's functions.
#[derive(Clone, Debug, PartialEq)]
pub struct LocalNameSection {
    /// A map from function indices to a map from variable indices to names.
    pub local_names: IndexMap<NameMap>,
}

/// Debug name information.
#[derive(Clone, Debug, PartialEq)]
pub enum NameSection {
    /// Module name section.
    Module(ModuleNameSection),
    /// Function name section.
    Function(FunctionNameSection),
    /// Local name section.
    Local(LocalNameSection),
    /// Name section is unparsed: kept verbatim, so that a section of an
    /// unknown type survives a decode/encode round trip unchanged.
    Unparsed { name_type: u8, name_payload: Vec<u8> },
}

/// The mathematical content of a name section: names as character
/// sequences, maps as entry sequences in their stored (ascending) order.
pub enum SectionModel {
    /// A module name.
    Module(Seq<char>),
    /// Function name entries.
    Function(Seq<(u32, Seq<char>)>),
    /// Local name entries: per function index, the entries of its inner map.
    Local(Seq<(u32, Seq<(u32, Seq<char>)>)>),
    /// An unrecognised section: its tag and its verbatim payload.
    Unparsed { tag: u8, payload: Seq<u8> },
}

impl View for ModuleNameSection {
    type V = Seq<char>;

    open spec fn view(&self) -> Seq<char> {
        self.name@
    }
}

impl View for FunctionNameSection {
    type V = Seq<(u32, Seq<char>)>;

    open spec fn view(&self) -> Seq<(u32, Seq<char>)> {
        self.names.deep_view()
    }
}

impl View for LocalNameSection {
    type V = Seq<(u32, Seq<(u32, Seq<char>)>)>;

    open spec fn view(&self) -> Seq<(u32, Seq<(u32, Seq<char>)>)> {
        self.local_names.deep_view()
    }
}

impl View for NameSection {
    type V = SectionModel;

    open spec fn view(&self) -> SectionModel {
        match self {
            NameSection::Module(s) => SectionModel::Module(s@),
            NameSection::Function(s) => SectionModel::Function(s@),
            NameSection::Local(s) => SectionModel::Local(s@),
            NameSection::Unparsed { name_type, name_payload } => SectionModel::Unparsed {
                tag: *name_type,
                payload: name_payload@,
            },
        }
    }
}

// ---------------------------------------------------------------------------
// What the encoder writes, as functions of the model.
// ---------------------------------------------------------------------------

/// A name on the wire: its UTF-8 byte length as a varint, then its bytes.
pub open spec fn enc_name(name: Seq<char>) -> Seq<u8> {
    var_u32_enc(encode_utf8(name).len()) + encode_utf8(name)
}

/// Name map entries on the wire: per entry, the index as a varint, then
/// the name; entries in their stored order.
pub open spec fn enc_name_entries(es: Seq<(u32, Seq<char>)>) -> Seq<u8>
    decreases es.len(),
{
    if es.len() == 0 {
        seq![]
    } else {
        var_u32_enc(es[0].0 as nat) + enc_name(es[0].1) + enc_name_entries(es.drop_first())
    }
}

/// A name map on the wire: its entry count as a varint, then its entries.
pub open spec fn enc_name_map(es: Seq<(u32, Seq<char>)>) -> Seq<u8> {
    var_u32_enc(es.len()) + enc_name_entries(es)
}

/// Local name entries on the wire: per entry, the function index as a
/// varint, then that function's whole name map.
pub open spec fn enc_local_entries(es: Seq<(u32, Seq<(u32, Seq<char>)>)>) -> Seq<u8>
    decreases es.len(),
{
    if es.len() == 0 {
        seq![]
    } else {
        var_u32_enc(es[0].0 as nat) + enc_name_map(es[0].1) + enc_local_entries(es.drop_first())
    }
}

/// A local name table on the wire: its entry count, then its entries.
pub open spec fn enc_local_map(es: Seq<(u32, Seq<(u32, Seq<char>)>)>) -> Seq<u8> {
    var_u32_enc(es.len()) + enc_local_entries(es)
}

/// The payload of a section: the bytes between the framing and the end.
pub open spec fn enc_payload(m: SectionModel) -> Seq<u8> {
    match m {
        SectionModel::Module(name) => enc_name(name),
        SectionModel::Function(es) => enc_name_map(es),
        SectionModel::Local(es) => enc_local_map(es),
        SectionModel::Unparsed { tag, payload } => payload,
    }
}

/// The tag byte of a section.
pub open spec fn enc_tag(m: SectionModel) -> u8 {
    match m {
        SectionModel::Module(_) => 0,
        SectionModel::Function(_) => 1,
        SectionModel::Local(_) => 2,
        SectionModel::Unparsed { tag, payload } => tag,
    }
}

/// A whole section on the wire: tag byte, payload length varint, payload.
pub open spec fn enc_section(m: SectionModel) -> Seq<u8> {
    seq![enc_tag(m)] + var_u32_enc(enc_payload(m).len()) + enc_payload(m)
}

// ---------------------------------------------------------------------------
// Which values the wire format can carry at all: every length, count and
// index field is a 32-bit varint, and a tag is a single 7-bit byte.
// ---------------------------------------------------------------------------

/// Whether a name's UTF-8 form fits a 32-bit length field.
pub open spec fn name_encodable(name: Seq<char>) -> bool {
    encode_utf8(name).len() < 0x1_0000_0000
}

/// Whether a name map's count and every name fit their fields.
pub open spec fn name_map_encodable(es: Seq<(u32, Seq<char>)>) -> bool {
    &&& es.len() < 0x1_0000_0000
    &&& forall|j: int| 0 <= j < es.len() ==> name_encodable(#[trigger] es[j].1)
}

/// Whether a local name table's count and every inner map fit their fields.
pub open spec fn local_map_encodable(es: Seq<(u32, Seq<(u32, Seq<char>)>)>) -> bool {
    &&& es.len() < 0x1_0000_0000
    &&& forall|j: int| 0 <= j < es.len() ==> name_map_encodable(#[trigger] es[j].1)
}

/// Whether a section can be written at all: its payload must be expressible
/// and must itself fit the 32-bit payload length field, and an unparsed
/// section's tag must fit one 7-bit byte.
pub open spec fn section_encodable(m: SectionModel) -> bool {
    &&& match m {
        SectionModel::Module(name) => name_encodable(name),
        SectionModel::Function(es) => name_map_encodable(es),
        SectionModel::Local(es) => local_map_encodable(es),
        SectionModel::Unparsed { tag, payload } => tag < 128,
    }
    &&& enc_payload(m).len() < 0x1_0000_0000
}

/// Whether an unparsed section claims a tag that belongs to a known kind;
/// such a value cannot survive a round trip, since its bytes decode as the
/// known kind.
pub open spec fn poses_as_known(m: SectionModel) -> bool {
    match m {
        SectionModel::Unparsed { tag, payload } => tag == 0 || tag == 1 || tag == 2,
        _ => false,
    }
}

/// Well-formed models: encodable, map keys strictly ascending at every
/// level, and an unparsed section carries a genuinely unknown tag.  Every
/// value that decoding or the construction methods produce is well-formed.
pub open spec fn section_wf(m: SectionModel) -> bool {
    &&& section_encodable(m)
    &&& !poses_as_known(m)
    &&& match m {
        SectionModel::Module(name) => true,
        SectionModel::Function(es) => keys_sorted(es),
        SectionModel::Local(es) => keys_sorted(es) && forall|j: int|
            0 <= j < es.len() ==> keys_sorted(#[trigger] es[j].1),
        SectionModel::Unparsed { tag, payload } => true,
    }
}

/// Whether an unparsed section's stored tag is outside the one-byte range.
pub open spec fn tag_out_of_range(s: NameSection) -> bool {
    match s {
        NameSection::Unparsed { name_type, name_payload } => name_type >= 128,
        _ => false,
    }
}

// ---------------------------------------------------------------------------
// Encoding.
// ---------------------------------------------------------------------------

/// Appends a length-prefixed name to `out`.
fn encode_name(name: &str, out: &mut Vec<u8>) -> (r: Result<(), EncodeError>)
    ensures
        match r {
            Ok(()) => name_encodable(name@) && final(out)@ == old(out)@ + enc_name(name@),
            Err(e) => {
                &&& !name_encodable(name@)
                &&& e == EncodeError::TooLong
                &&& final(out)@ == old(out)@
            },
        },
{
    let bs = name.as_bytes();
    let n = bs.len();
    if n as u64 >= 0x1_0000_0000u64 {
        return Err(EncodeError::TooLong);
    }
    encode_var_u32(n as u32, out);
    out.extend_from_slice(bs);
    assert(out@ =~= old(out)@ + enc_name(name@));
    Ok(())
}

/// Entry sequences encode entry by entry.
proof fn lemma_enc_name_entries_push(es: Seq<(u32, Seq<char>)>, e: (u32, Seq<char>))
    ensures
        enc_name_entries(es.push(e)) == enc_name_entries(es) + var_u32_enc(e.0 as nat) + enc_name(
            e.1,
        ),
    decreases es.len(),
{
    if es.len() == 0 {
        assert(es.push(e).drop_first() =~= Seq::<(u32, Seq<char>)>::empty());
        assert(es.push(e)[0] == e);
        assert(es.push(e).len() == 1);
        assert(enc_name_entries(es.push(e)) == var_u32_enc(e.0 as nat) + enc_name(e.1)
            + enc_name_entries(es.push(e).drop_first()));
        assert(enc_name_entries(es.push(e).drop_first()) == Seq::<u8>::empty());
        assert(enc_name_entries(es) == Seq::<u8>::empty());
        assert(enc_name_entries(es.push(e)) =~= enc_name_entries(es) + var_u32_enc(e.0 as nat)
            + enc_name(e.1));
    } else {
        lemma_enc_name_entries_push(es.drop_first(), e);
        assert(es.push(e).drop_first() =~= es.drop_first().push(e));
        assert(es.push(e)[0] == es[0]);
        let a = var_u32_enc(es[0].0 as nat) + enc_name(es[0].1);
        let t = enc_name_entries(es.drop_first());
        let ve = var_u32_enc(e.0 as nat);
        let ne = enc_name(e.1);
        assert(enc_name_entries(es.push(e)) == a + enc_name_entries(es.drop_first().push(e)));
        assert(enc_name_entries(es.drop_first().push(e)) == t + ve + ne);
        assert(a + (t + ve + ne) =~= ((a + t) + ve) + ne);
        assert(enc_name_entries(es) == a + t);
    }
}

/// Local entry sequences encode entry by entry.
proof fn lemma_enc_local_entries_push(
    es: Seq<(u32, Seq<(u32, Seq<char>)>)>,
    e: (u32, Seq<(u32, Seq<char>)>),
)
    ensures
        enc_local_entries(es.push(e)) == enc_local_entries(es) + var_u32_enc(e.0 as nat)
            + enc_name_map(e.1),
    decreases es.len(),
{
    if es.len() == 0 {
        assert(es.push(e).drop_first() =~= Seq::<(u32, Seq<(u32, Seq<char>)>)>::empty());
        assert(es.push(e)[0] == e);
        assert(es.push(e).len() == 1);
        assert(enc_local_entries(es.push(e)) == var_u32_enc(e.0 as nat) + enc_name_map(e.1)
            + enc_local_entries(es.push(e).drop_first()));
        assert(enc_local_entries(es.push(e).drop_first()) == Seq::<u8>::empty());
        assert(enc_local_entries(es) == Seq::<u8>::empty());
        assert(enc_local_entries(es.push(e)) =~= enc_local_entries(es) + var_u32_enc(e.0 as nat)
            + enc_name_map(e.1));
    } else {
        lemma_enc_local_entries_push(es.drop_first(), e);
        assert(es.push(e).drop_first() =~= es.drop_first().push(e));
        assert(es.push(e)[0] == es[0]);
        let a = var_u32_enc(es[0].0 as nat) + enc_name_map(es[0].1);
        let t = enc_local_entries(es.drop_first());
        let ve = var_u32_enc(e.0 as nat);
        let ne = enc_name_map(e.1);
        assert(enc_local_entries(es.push(e)) == a + enc_local_entries(es.drop_first().push(e)));
        assert(enc_local_entries(es.drop_first().push(e)) == t + ve + ne);
        assert(a + (t + ve + ne) =~= ((a + t) + ve) + ne);
        assert(enc_local_entries(es) == a + t);
    }
}

/// Appends a name map (count, then entries in stored order) to `out`.
fn encode_name_map(m: &NameMap, out: &mut Vec<u8>) -> (r: Result<(), EncodeError>)
    ensures
        match r {
            Ok(()) => name_map_encodable(m.deep_view()) && final(out)@ == old(out)@ + enc_name_map(
                m.deep_view(),
            ),
            Err(e) => {
                &&& !name_map_encodable(m.deep_view())
                &&& e == EncodeError::TooLong
                &&& old(out)@.is_prefix_of(final(out)@)
            },
        },
{
    let ghost dv = m.deep_view();
    let count = m.entries.len();
    if count as u64 >= 0x1_0000_0000u64 {
        return Err(EncodeError::TooLong);
    }
    encode_var_u32(count as u32, out);
    let mut i: usize = 0;
    proof {
        assert(dv.take(0) =~= Seq::<(u32, Seq<char>)>::empty());
        assert(out@ =~= old(out)@ + var_u32_enc(count as nat) + enc_name_entries(dv.take(0)));
    }
    while i < count
        invariant
            i <= count,
            count == m.entries@.len(),
            count < 0x1_0000_0000,
            dv == m.deep_view(),
            dv.len() == count,
            out@ == old(out)@ + var_u32_enc(count as nat) + enc_name_entries(dv.take(i as int)),
            forall|j: int| 0 <= j < i ==> name_encodable(#[trigger] dv[j].1),
        decreases count - i,
    {
        let entry = &m.entries[i];
        assert(dv[i as int] == (entry.0, entry.1@));
        encode_var_u32(entry.0, out);
        match encode_name(entry.1.as_str(), out) {
            Ok(()) => {},
            Err(e) => {
                assert(!name_encodable(dv[i as int].1));
                return Err(e);
            },
        }
        proof {
            lemma_enc_name_entries_push(dv.take(i as int), dv[i as int]);
            assert(dv.take(i as int + 1) =~= dv.take(i as int).push(dv[i as int]));
            assert(out@ =~= old(out)@ + var_u32_enc(count as nat) + enc_name_entries(
                dv.take(i as int + 1),
            ));
        }
        i = i + 1;
    }
    proof {
        assert(dv.take(count as int) =~= dv);
    }
    Ok(())
}

/// Appends a local name table (count, then per function its map) to `out`.
fn encode_local_map(m: &IndexMap<NameMap>, out: &mut Vec<u8>) -> (r: Result<(), EncodeError>)
    ensures
        match r {
            Ok(()) => local_map_encodable(m.deep_view()) && final(out)@ == old(out)@
                + enc_local_map(m.deep_view()),
            Err(e) => {
                &&& !local_map_encodable(m.deep_view())
                &&& e == EncodeError::TooLong
                &&& old(out)@.is_prefix_of(final(out)@)
            },
        },
{
    let ghost dv = m.deep_view();
    let count = m.entries.len();
    if count as u64 >= 0x1_0000_0000u64 {
        return Err(EncodeError::TooLong);
    }
    encode_var_u32(count as u32, out);
    let mut i: usize = 0;
    proof {
        assert(dv.take(0) =~= Seq::<(u32, Seq<(u32, Seq<char>)>)>::empty());
        assert(out@ =~= old(out)@ + var_u32_enc(count as nat) + enc_local_entries(dv.take(0)));
    }
    while i < count
        invariant
            i <= count,
            count == m.entries@.len(),
            count < 0x1_0000_0000,
            dv == m.deep_view(),
            dv.len() == count,
            out@ == old(out)@ + var_u32_enc(count as nat) + enc_local_entries(dv.take(i as int)),
            forall|j: int| 0 <= j < i ==> name_map_encodable(#[trigger] dv[j].1),
        decreases count - i,
    {
        let entry = &m.entries[i];
        assert(dv[i as int] == (entry.0, entry.1.deep_view()));
        encode_var_u32(entry.0, out);
        match encode_name_map(&entry.1, out) {
            Ok(()) => {},
            Err(e) => {
                assert(!name_map_encodable(dv[i as int].1));
                assert(old(out)@.is_prefix_of(out@));
                return Err(e);
            },
        }
        proof {
            lemma_enc_local_entries_push(dv.take(i as int), dv[i as int]);
            assert(dv.take(i as int + 1) =~= dv.take(i as int).push(dv[i as int]));
            assert(out@ =~= old(out)@ + var_u32_enc(count as nat) + enc_local_entries(
                dv.take(i as int + 1),
            ));
        }
        i = i + 1;
    }
    proof {
        assert(dv.take(count as int) =~= dv);
    }
    Ok(())
}

/// Appends the tag byte, the payload's length, and the payload to `out`.
fn write_framed(tag: u8, payload: &Vec<u8>, out: &mut Vec<u8>) -> (r: Result<(), EncodeError>)
    requires
        tag < 128,
    ensures
        match r {
            Ok(()) => payload@.len() < 0x1_0000_0000 && final(out)@ == old(out)@ + seq![tag]
                + var_u32_enc(payload@.len()) + payload@,
            Err(e) => {
                &&& payload@.len() >= 0x1_0000_0000
                &&& e == EncodeError::TooLong
                &&& final(out)@ == old(out)@
            },
        },
{
    let n = payload.len();
    if n as u64 >= 0x1_0000_0000u64 {
        return Err(EncodeError::TooLong);
    }
    out.push(tag);
    encode_var_u32(n as u32, out);
    out.extend_from_slice(payload.as_slice());
    assert(out@ =~= old(out)@ + seq![tag] + var_u32_enc(payload@.len()) + payload@);
    Ok(())
}

impl ModuleNameSection {
    /// Create a new module name section with the specified name.
    pub fn new(name: &str) -> (r: ModuleNameSection)
        ensures
            r@ == name@,
    {
        ModuleNameSection { name: name.to_owned() }
    }

    /// The name of this module.
    pub fn name(&self) -> (r: &str)
        ensures
            r@ == self@,
    {
        self.name.as_str()
    }

    /// The name of this module (mutable).
    pub fn name_mut(&mut self) -> (r: &mut String)
        ensures
            *r == old(self).name,
            *final(self) == (ModuleNameSection { name: *final(r) }),
    {
        &mut self.name
    }

    /// Appends this sub-section's payload (the length-prefixed name) to
    /// `out`; fails exactly when the name does not fit a 32-bit length.
    pub fn serialize(&self, out: &mut Vec<u8>) -> (r: Result<(), EncodeError>)
        ensures
            match r {
                Ok(()) => name_encodable(self@) && final(out)@ == old(out)@ + enc_name(self@),
                Err(e) => {
                    &&& !name_encodable(self@)
                    &&& e == EncodeError::TooLong
                    &&& final(out)@ == old(out)@
                },
            },
    {
        encode_name(self.name.as_str(), out)
    }

    /// Reads this sub-section's payload (one length-prefixed name) at `pos`.
    pub fn deserialize(bytes: &Vec<u8>, pos: usize) -> (r: Result<
        (ModuleNameSection, usize),
        DecodeError,
    >)
        requires
            pos <= bytes@.len(),
        ensures
            match r {
                Ok(p) => {
                    &&& dec_name(bytes@.skip(pos as int)) == Ok::<(Seq<char>, int), DecodeError>((
                        p.0@,
                        p.1 - pos,
                    ))
                    &&& pos <= p.1 <= bytes@.len()
                },
                Err(e) => dec_name(bytes@.skip(pos as int)) == Err::<(Seq<char>, int), DecodeError>(
                    e,
                ),
            },
    {
        match decode_name(bytes, pos) {
            Ok((name, end)) => Ok((ModuleNameSection { name }, end)),
            Err(e) => Err(e),
        }
    }
}

impl FunctionNameSection {
    /// A map from function indices to names.
    pub fn names(&self) -> (r: &NameMap)
        ensures
            *r == self.names,
    {
        &self.names
    }

    /// A map from function indices to names (mutable).
    pub fn names_mut(&mut self) -> (r: &mut NameMap)
        ensures
            *r == old(self).names,
            *final(self) == (FunctionNameSection { names: *final(r) }),
    {
        &mut self.names
    }

    /// Appends this sub-section's payload (the name map) to `out`; fails
    /// exactly when the count or a name does not fit a 32-bit field.
    pub fn serialize(&self, out: &mut Vec<u8>) -> (r: Result<(), EncodeError>)
        ensures
            match r {
                Ok(()) => name_map_encodable(self@) && final(out)@ == old(out)@ + enc_name_map(
                    self@,
                ),
                Err(e) => {
                    &&& !name_map_encodable(self@)
                    &&& e == EncodeError::TooLong
                    &&& old(out)@.is_prefix_of(final(out)@)
                },
            },
    {
        encode_name_map(&self.names, out)
    }

    /// Reads this sub-section's payload (one name map) at `pos`.
    pub fn deserialize(bytes: &Vec<u8>, pos: usize) -> (r: Result<
        (FunctionNameSection, usize),
        DecodeError,
    >)
        requires
            pos <= bytes@.len(),
        ensures
            match r {
                Ok(p) => {
                    &&& dec_name_map(bytes@.skip(pos as int)) == Ok::<
                        (Seq<(u32, Seq<char>)>, int),
                        DecodeError,
                    >((p.0@, p.1 - pos))
                    &&& pos <= p.1 <= bytes@.len()
                    &&& keys_sorted(p.0.names@)
                },
                Err(e) => dec_name_map(bytes@.skip(pos as int)) == Err::<
                    (Seq<(u32, Seq<char>)>, int),
                    DecodeError,
                >(e),
            },
    {
        match decode_name_map(bytes, pos) {
            Ok((names, end)) => Ok((FunctionNameSection { names }, end)),
            Err(e) => Err(e),
        }
    }
}

impl Default for FunctionNameSection {
    /// A section with no named function.
    fn default() -> (r: Self)
        ensures
            r@ == Seq::<(u32, Seq<char>)>::empty(),
    {
        let r = FunctionNameSection { names: IndexMap::new() };
        proof {
            assert(r@ =~= Seq::<(u32, Seq<char>)>::empty());
        }
        r
    }
}

impl LocalNameSection {
    /// A map from function indices to a map from variable indices to names.
    pub fn local_names(&self) -> (r: &IndexMap<NameMap>)
        ensures
            *r == self.local_names,
    {
        &self.local_names
    }

    /// A map from function indices to a map from variable indices to names
    /// (mutable).
    pub fn local_names_mut(&mut self) -> (r: &mut IndexMap<NameMap>)
        ensures
            *r == old(self).local_names,
            *final(self) == (LocalNameSection { local_names: *final(r) }),
    {
        &mut self.local_names
    }

    /// Appends this sub-section's payload (the local name table) to `out`;
    /// fails exactly when a count or a name does not fit a 32-bit field.
    pub fn serialize(&self, out: &mut Vec<u8>) -> (r: Result<(), EncodeError>)
        ensures
            match r {
                Ok(()) => local_map_encodable(self@) && final(out)@ == old(out)@ + enc_local_map(
                    self@,
                ),
                Err(e) => {
                    &&& !local_map_encodable(self@)
                    &&& e == EncodeError::TooLong
                    &&& old(out)@.is_prefix_of(final(out)@)
                },
            },
    {
        encode_local_map(&self.local_names, out)
    }

    /// Reads this sub-section's payload (one local name table) at `pos`.
    pub fn deserialize(bytes: &Vec<u8>, pos: usize) -> (r: Result<
        (LocalNameSection, usize),
        DecodeError,
    >)
        requires
            pos <= bytes@.len(),
        ensures
            match r {
                Ok(p) => {
                    &&& dec_local_map(bytes@.skip(pos as int)) == Ok::<
                        (Seq<(u32, Seq<(u32, Seq<char>)>)>, int),
                        DecodeError,
                    >((p.0@, p.1 - pos))
                    &&& pos <= p.1 <= bytes@.len()
                    &&& keys_sorted(p.0.local_names@)
                    &&& forall|j: int|
                        0 <= j < p.0.local_names@.len() ==> keys_sorted(
                            (#[trigger] p.0.local_names@[j]).1@,
                        )
                },
                Err(e) => dec_local_map(bytes@.skip(pos as int)) == Err::<
                    (Seq<(u32, Seq<(u32, Seq<char>)>)>, int),
                    DecodeError,
                >(e),
            },
    {
        match decode_local_map(bytes, pos) {
            Ok((local_names, end)) => Ok((LocalNameSection { local_names }, end)),
            Err(e) => Err(e),
        }
    }
}

impl Default for LocalNameSection {
    /// A section with no local names.
    fn default() -> (r: Self)
        ensures
            r@ == Seq::<(u32, Seq<(u32, Seq<char>)>)>::empty(),
    {
        let r = LocalNameSection { local_names: IndexMap::new() };
        proof {
            assert(r@ =~= Seq::<(u32, Seq<(u32, Seq<char>)>)>::empty());
        }
        r
    }
}

impl NameSection {
    /// Appends the whole section (tag, payload length, payload) to `out`.
    /// Succeeds exactly on encodable values; fails with `TagRange` exactly
    /// when an unparsed tag is outside the one-byte range, and with
    /// `TooLong` exactly when a length field overflows its 32-bit range.
    pub fn serialize(&self, out: &mut Vec<u8>) -> (r: Result<(), EncodeError>)
        ensures
            match r {
                Ok(()) => section_encodable(self@) && final(out)@ == old(out)@ + enc_section(
                    self@,
                ),
                Err(e) => {
                    &&& !section_encodable(self@)
                    &&& old(out)@.is_prefix_of(final(out)@)
                    &&& (e == EncodeError::TagRange <==> tag_out_of_range(*self))
                },
            },
    {
        match self {
            NameSection::Module(s) => {
                let mut payload: Vec<u8> = Vec::new();
                match s.serialize(&mut payload) {
                    Ok(()) => {},
                    Err(e) => {
                        assert(old(out)@.is_prefix_of(out@));
                        return Err(e);
                    },
                }
                match write_framed(0u8, &payload, out) {
                    Ok(()) => {
                        assert(out@ =~= old(out)@ + enc_section(self@));
                        Ok(())
                    },
                    Err(e) => Err(e),
                }
            },
            NameSection::Function(s) => {
                let mut payload: Vec<u8> = Vec::new();
                match s.serialize(&mut payload) {
                    Ok(()) => {},
                    Err(e) => {
                        assert(old(out)@.is_prefix_of(out@));
                        return Err(e);
                    },
                }
                match write_framed(1u8, &payload, out) {
                    Ok(()) => {
                        assert(out@ =~= old(out)@ + enc_section(self@));
                        Ok(())
                    },
                    Err(e) => Err(e),
                }
            },
            NameSection::Local(s) => {
                let mut payload: Vec<u8> = Vec::new();
                match s.serialize(&mut payload) {
                    Ok(()) => {},
                    Err(e) => {
                        assert(old(out)@.is_prefix_of(out@));
                        return Err(e);
                    },
                }
                match write_framed(2u8, &payload, out) {
                    Ok(()) => {
                        assert(out@ =~= old(out)@ + enc_section(self@));
                        Ok(())
                    },
                    Err(e) => Err(e),
                }
            },
            NameSection::Unparsed { name_type, name_payload } => {
                if *name_type >= 128 {
                    return Err(EncodeError::TagRange);
                }
                match write_framed(*name_type, name_payload, out) {
                    Ok(()) => {
                        assert(out@ =~= old(out)@ + enc_section(self@));
                        Ok(())
                    },
                    Err(e) => Err(e),
                }
            },
        }
    }
}

// ---------------------------------------------------------------------------
// What the decoder accepts, as functions of the input bytes.  Each function
// reads from the front of its byte sequence and reports the value it found
// and how many bytes it spans, or the error the input earns.
// ---------------------------------------------------------------------------

/// Decode of one length-prefixed name: its length, then that many bytes,
/// which must be valid UTF-8.
pub open spec fn dec_name(s: Seq<u8>) -> Result<(Seq<char>, int), DecodeError> {
    match var_u32_dec(s) {
        Ok((len, n)) => {
            if s.len() < n + len {
                Err(DecodeError::Truncated)
            } else {
                let w = s.subrange(n, n + len);
                if valid_utf8(w) {
                    Ok((decode_utf8(w), n + len))
                } else {
                    Err(DecodeError::InvalidUtf8)
                }
            }
        },
        Err(e) => Err(e),
    }
}

/// Whether `idx` may follow the previously read index `lo`: indices must be
/// strictly ascending.
pub open spec fn key_above(lo: Option<u32>, idx: u32) -> bool {
    match lo {
        None => true,
        Some(p) => p < idx,
    }
}

/// Decode of `count` name map entries, each an index (strictly above the
/// one before) and a name.
pub open spec fn dec_name_entries(s: Seq<u8>, count: nat, lo: Option<u32>) -> Result<
    (Seq<(u32, Seq<char>)>, int),
    DecodeError,
>
    decreases count,
{
    if count == 0 {
        Ok((seq![], 0))
    } else {
        match var_u32_dec(s) {
            Ok((idx, n1)) => {
                if !key_above(lo, idx) {
                    Err(DecodeError::IndexOrder)
                } else {
                    match dec_name(s.skip(n1)) {
                        Ok((name, n2)) => {
                            match dec_name_entries(
                                s.skip(n1 + n2),
                                (count - 1) as nat,
                                Some(idx),
                            ) {
                                Ok((tail, n3)) => Ok((seq![(idx, name)] + tail, n1 + n2 + n3)),
                                Err(e) => Err(e),
                            }
                        },
                        Err(e) => Err(e),
                    }
                }
            },
            Err(e) => Err(e),
        }
    }
}

/// Decode of a whole name map: its entry count, then its entries.
pub open spec fn dec_name_map(s: Seq<u8>) -> Result<(Seq<(u32, Seq<char>)>, int), DecodeError> {
    match var_u32_dec(s) {
        Ok((count, n)) => {
            match dec_name_entries(s.skip(n), count as nat, None::<u32>) {
                Ok((es, m)) => Ok((es, n + m)),
                Err(e) => Err(e),
            }
        },
        Err(e) => Err(e),
    }
}

/// Decode of `count` local name entries, each a function index (strictly
/// above the one before) and that function's name map.
pub open spec fn dec_local_entries(s: Seq<u8>, count: nat, lo: Option<u32>) -> Result<
    (Seq<(u32, Seq<(u32, Seq<char>)>)>, int),
    DecodeError,
>
    decreases count,
{
    if count == 0 {
        Ok((seq![], 0))
    } else {
        match var_u32_dec(s) {
            Ok((idx, n1)) => {
                if !key_above(lo, idx) {
                    Err(DecodeError::IndexOrder)
                } else {
                    match dec_name_map(s.skip(n1)) {
                        Ok((inner, n2)) => {
                            match dec_local_entries(
                                s.skip(n1 + n2),
                                (count - 1) as nat,
                                Some(idx),
                            ) {
                                Ok((tail, n3)) => Ok((seq![(idx, inner)] + tail, n1 + n2 + n3)),
                                Err(e) => Err(e),
                            }
                        },
                        Err(e) => Err(e),
                    }
                }
            },
            Err(e) => Err(e),
        }
    }
}

/// Decode of a whole local name table: its entry count, then its entries.
pub open spec fn dec_local_map(s: Seq<u8>) -> Result<
    (Seq<(u32, Seq<(u32, Seq<char>)>)>, int),
    DecodeError,
> {
    match var_u32_dec(s) {
        Ok((count, n)) => {
            match dec_local_entries(s.skip(n), count as nat, None::<u32>) {
                Ok((es, m)) => Ok((es, n + m)),
                Err(e) => Err(e),
            }
        },
        Err(e) => Err(e),
    }
}

/// Decode of a whole section: the tag byte, the declared payload length,
/// then the payload, which a known tag's sub-codec must span exactly.
pub open spec fn dec_section(s: Seq<u8>) -> Result<(SectionModel, int), DecodeError> {
    if s.len() == 0 {
        Err(DecodeError::Truncated)
    } else if s[0] >= 128 {
        Err(DecodeError::MalformedVarint)
    } else {
        match var_u32_dec(s.skip(1)) {
            Ok((plen, n)) => {
                if s.len() < 1 + n + plen {
                    Err(DecodeError::Truncated)
                } else {
                    let payload = s.subrange(1 + n, 1 + n + plen);
                    let end = 1 + n + plen;
                    if s[0] == 0 {
                        match dec_name(payload) {
                            Ok((name, m)) => {
                                if m == plen {
                                    Ok((SectionModel::Module(name), end))
                                } else {
                                    Err(DecodeError::LengthMismatch)
                                }
                            },
                            Err(e) => Err(e),
                        }
                    } else if s[0] == 1 {
                        match dec_name_map(payload) {
                            Ok((es, m)) => {
                                if m == plen {
                                    Ok((SectionModel::Function(es), end))
                                } else {
                                    Err(DecodeError::LengthMismatch)
                                }
                            },
                            Err(e) => Err(e),
                        }
                    } else if s[0] == 2 {
                        match dec_local_map(payload) {
                            Ok((es, m)) => {
                                if m == plen {
                                    Ok((SectionModel::Local(es), end))
                                } else {
                                    Err(DecodeError::LengthMismatch)
                                }
                            },
                            Err(e) => Err(e),
                        }
                    } else {
                        Ok((SectionModel::Unparsed { tag: s[0], payload }, end))
                    }
                }
            },
            Err(e) => Err(e),
        }
    }
}

// ---------------------------------------------------------------------------
// Decoding.
// ---------------------------------------------------------------------------

/// Relies on String::from_utf8: it succeeds exactly when the bytes are
/// valid UTF-8, and the string then holds the characters those bytes
/// encode, in vstd's model of UTF-8.
#[verifier::external_body]
fn bytes_to_string(bytes: Vec<u8>) -> (r: Option<String>)
    ensures
        match r {
            Some(s) => valid_utf8(bytes@) && s@ == decode_utf8(bytes@),
            None => !valid_utf8(bytes@),
        },
{
    match String::from_utf8(bytes) {
        Ok(s) => Some(s),
        Err(_) => None,
    }
}

/// Copies `bytes[from..to]` into a fresh buffer.
fn copy_range(bytes: &Vec<u8>, from: usize, to: usize) -> (r: Vec<u8>)
    requires
        from <= to <= bytes@.len(),
    ensures
        r@ == bytes@.subrange(from as int, to as int),
{
    let mut r: Vec<u8> = Vec::new();
    let mut i = from;
    proof {
        assert(r@ =~= bytes@.subrange(from as int, from as int));
    }
    while i < to
        invariant
            from <= i <= to <= bytes@.len(),
            r@ == bytes@.subrange(from as int, i as int),
        decreases to - i,
    {
        r.push(bytes[i]);
        proof {
            assert(r@ =~= bytes@.subrange(from as int, i as int + 1));
        }
        i = i + 1;
    }
    r
}

/// Reads one length-prefixed name at `pos`.
fn decode_name(bytes: &Vec<u8>, pos: usize) -> (r: Result<(String, usize), DecodeError>)
    requires
        pos <= bytes@.len(),
    ensures
        match r {
            Ok(p) => {
                &&& dec_name(bytes@.skip(pos as int)) == Ok::<(Seq<char>, int), DecodeError>((
                    p.0@,
                    p.1 - pos,
                ))
                &&& pos <= p.1 <= bytes@.len()
            },
            Err(e) => dec_name(bytes@.skip(pos as int)) == Err::<(Seq<char>, int), DecodeError>(e),
        },
{
    let ghost s = bytes@.skip(pos as int);
    match decode_var_u32(bytes, pos) {
        Ok((len, p1)) => {
            if bytes.len() - p1 < len as usize {
                Err(DecodeError::Truncated)
            } else {
                let end = p1 + len as usize;
                let w = copy_range(bytes, p1, end);
                proof {
                    assert(w@ =~= s.subrange(p1 - pos, (p1 - pos) + len));
                }
                match bytes_to_string(w) {
                    Some(name) => Ok((name, end)),
                    None => Err(DecodeError::InvalidUtf8),
                }
            }
        },
        Err(e) => Err(e),
    }
}

/// Prefixing already parsed entries (and the bytes they spanned) onto the
/// outcome of parsing the remaining entries.
pub open spec fn entries_prepend<A>(
    done: Seq<A>,
    used: int,
    r: Result<(Seq<A>, int), DecodeError>,
) -> Result<(Seq<A>, int), DecodeError> {
    match r {
        Ok((tail, n)) => Ok((done + tail, used + n)),
        Err(e) => Err(e),
    }
}

/// Reads a whole name map at `pos`: its entry count, then that many
/// entries, whose indices must be strictly ascending.
fn decode_name_map(bytes: &Vec<u8>, pos: usize) -> (r: Result<(NameMap, usize), DecodeError>)
    requires
        pos <= bytes@.len(),
    ensures
        match r {
            Ok(p) => {
                &&& dec_name_map(bytes@.skip(pos as int)) == Ok::<
                    (Seq<(u32, Seq<char>)>, int),
                    DecodeError,
                >((p.0.deep_view(), p.1 - pos))
                &&& pos <= p.1 <= bytes@.len()
                &&& keys_sorted(p.0@)
            },
            Err(e) => dec_name_map(bytes@.skip(pos as int)) == Err::<
                (Seq<(u32, Seq<char>)>, int),
                DecodeError,
            >(e),
        },
{
    let (count, p1) = match decode_var_u32(bytes, pos) {
        Ok(p) => p,
        Err(e) => {
            return Err(e);
        },
    };
    let mut entries: Vec<(u32, String)> = Vec::new();
    let mut p = p1;
    let mut i: u32 = 0;
    let mut prev: Option<u32> = None;
    proof {
        assert(entries.deep_view() =~= Seq::<(u32, Seq<char>)>::empty());
        match dec_name_entries(bytes@.skip(p1 as int), count as nat, None::<u32>) {
            Ok((tail, n)) => {
                assert(Seq::<(u32, Seq<char>)>::empty() + tail =~= tail);
            },
            Err(_) => {},
        }
    }
    while i < count
        invariant
            pos <= p1 <= p <= bytes@.len(),
            i <= count,
            var_u32_dec(bytes@.skip(pos as int)) == Ok::<(u32, int), DecodeError>((
                count,
                p1 - pos,
            )),
            dec_name_entries(bytes@.skip(p1 as int), count as nat, None::<u32>) == entries_prepend(
                entries.deep_view(),
                p - p1,
                dec_name_entries(bytes@.skip(p as int), (count - i) as nat, prev),
            ),
            entries@.len() == i,
            entries.deep_view().len() == i,
            keys_sorted(entries@),
            (match prev {
                Some(pv) => forall|j: int|
                    0 <= j < entries@.len() ==> (#[trigger] entries@[j]).0 <= pv,
                None => entries@.len() == 0,
            }),
        decreases count - i,
    {
        proof {
            assert(bytes@.skip(pos as int).skip(p1 - pos) =~= bytes@.skip(p1 as int));
        }
        let (idx, q1) = match decode_var_u32(bytes, p) {
            Ok(x) => x,
            Err(e) => {
                return Err(e);
            },
        };
        let order_ok = match prev {
            None => true,
            Some(pv) => pv < idx,
        };
        if !order_ok {
            proof {
                assert(!key_above(prev, idx));
            }
            return Err(DecodeError::IndexOrder);
        }
        proof {
            assert(bytes@.skip(p as int).skip(q1 - p) =~= bytes@.skip(q1 as int));
        }
        let (name, q2) = match decode_name(bytes, q1) {
            Ok(x) => x,
            Err(e) => {
                return Err(e);
            },
        };
        proof {
            assert(bytes@.skip(p as int).skip((q1 - p) + (q2 - q1)) =~= bytes@.skip(q2 as int));
        }
        let ghost old_entries = entries@;
        let ghost old_dv = entries.deep_view();
        let ghost name_chars = name@;
        entries.push((idx, name));
        proof {
            assert(entries.deep_view() =~= old_dv.push((idx, name_chars)));
            match dec_name_entries(bytes@.skip(q2 as int), (count - i - 1) as nat, Some(idx)) {
                Ok((tail, n3)) => {
                    assert(old_dv + (seq![(idx, name_chars)] + tail) =~= entries.deep_view()
                        + tail);
                },
                Err(_) => {},
            }
            assert forall|a: int, b: int|
                0 <= a < b < entries@.len() implies (#[trigger] entries@[a]).0 < (
            #[trigger] entries@[b]).0 by {
                if b == entries@.len() - 1 {
                    assert(entries@[a] == old_entries[a]);
                } else {
                    assert(entries@[a] == old_entries[a]);
                    assert(entries@[b] == old_entries[b]);
                }
            }
        }
        prev = Some(idx);
        p = q2;
        i = i + 1;
    }
    proof {
        assert(bytes@.skip(pos as int).skip(p1 - pos) =~= bytes@.skip(p1 as int));
        assert(dec_name_entries(bytes@.skip(p as int), 0, prev) == Ok::<
            (Seq<(u32, Seq<char>)>, int),
            DecodeError,
        >((seq![], 0)));
        assert(entries.deep_view() + seq![] =~= entries.deep_view());
    }
    Ok((IndexMap { entries }, p))
}

/// Reads a whole local name table at `pos`: its entry count, then that many
/// entries (function index, inner name map), the function indices strictly
/// ascending.
fn decode_local_map(bytes: &Vec<u8>, pos: usize) -> (r: Result<
    (IndexMap<NameMap>, usize),
    DecodeError,
>)
    requires
        pos <= bytes@.len(),
    ensures
        match r {
            Ok(p) => {
                &&& dec_local_map(bytes@.skip(pos as int)) == Ok::<
                    (Seq<(u32, Seq<(u32, Seq<char>)>)>, int),
                    DecodeError,
                >((p.0.deep_view(), p.1 - pos))
                &&& pos <= p.1 <= bytes@.len()
                &&& keys_sorted(p.0@)
                &&& forall|j: int| 0 <= j < p.0@.len() ==> keys_sorted((#[trigger] p.0@[j]).1@)
            },
            Err(e) => dec_local_map(bytes@.skip(pos as int)) == Err::<
                (Seq<(u32, Seq<(u32, Seq<char>)>)>, int),
                DecodeError,
            >(e),
        },
{
    let (count, p1) = match decode_var_u32(bytes, pos) {
        Ok(p) => p,
        Err(e) => {
            return Err(e);
        },
    };
    let mut entries: Vec<(u32, NameMap)> = Vec::new();
    let mut p = p1;
    let mut i: u32 = 0;
    let mut prev: Option<u32> = None;
    proof {
        assert(entries.deep_view() =~= Seq::<(u32, Seq<(u32, Seq<char>)>)>::empty());
        match dec_local_entries(bytes@.skip(p1 as int), count as nat, None::<u32>) {
            Ok((tail, n)) => {
                assert(Seq::<(u32, Seq<(u32, Seq<char>)>)>::empty() + tail =~= tail);
            },
            Err(_) => {},
        }
    }
    while i < count
        invariant
            pos <= p1 <= p <= bytes@.len(),
            i <= count,
            var_u32_dec(bytes@.skip(pos as int)) == Ok::<(u32, int), DecodeError>((
                count,
                p1 - pos,
            )),
            dec_local_entries(bytes@.skip(p1 as int), count as nat, None::<u32>)
                == entries_prepend(
                entries.deep_view(),
                p - p1,
                dec_local_entries(bytes@.skip(p as int), (count - i) as nat, prev),
            ),
            entries@.len() == i,
            entries.deep_view().len() == i,
            keys_sorted(entries@),
            forall|j: int| 0 <= j < entries@.len() ==> keys_sorted((#[trigger] entries@[j]).1@),
            (match prev {
                Some(pv) => forall|j: int|
                    0 <= j < entries@.len() ==> (#[trigger] entries@[j]).0 <= pv,
                None => entries@.len() == 0,
            }),
        decreases count - i,
    {
        proof {
            assert(bytes@.skip(pos as int).skip(p1 - pos) =~= bytes@.skip(p1 as int));
        }
        let (idx, q1) = match decode_var_u32(bytes, p) {
            Ok(x) => x,
            Err(e) => {
                return Err(e);
            },
        };
        let order_ok = match prev {
            None => true,
            Some(pv) => pv < idx,
        };
        if !order_ok {
            proof {
                assert(!key_above(prev, idx));
            }
            return Err(DecodeError::IndexOrder);
        }
        proof {
            assert(bytes@.skip(p as int).skip(q1 - p) =~= bytes@.skip(q1 as int));
        }
        let (inner, q2) = match decode_name_map(bytes, q1) {
            Ok(x) => x,
            Err(e) => {
                return Err(e);
            },
        };
        proof {
            assert(bytes@.skip(p as int).skip((q1 - p) + (q2 - q1)) =~= bytes@.skip(q2 as int));
        }
        let ghost old_entries = entries@;
        let ghost old_dv = entries.deep_view();
        let ghost inner_dv = inner.deep_view();
        entries.push((idx, inner));
        proof {
            assert(entries.deep_view() =~= old_dv.push((idx, inner_dv)));
            match dec_local_entries(bytes@.skip(q2 as int), (count - i - 1) as nat, Some(idx)) {
                Ok((tail, n3)) => {
                    assert(old_dv + (seq![(idx, inner_dv)] + tail) =~= entries.deep_view() + tail);
                },
                Err(_) => {},
            }
            assert forall|a: int, b: int|
                0 <= a < b < entries@.len() implies (#[trigger] entries@[a]).0 < (
            #[trigger] entries@[b]).0 by {
                if b == entries@.len() - 1 {
                    assert(entries@[a] == old_entries[a]);
                } else {
                    assert(entries@[a] == old_entries[a]);
                    assert(entries@[b] == old_entries[b]);
                }
            }
        }
        prev = Some(idx);
        p = q2;
        i = i + 1;
    }
    proof {
        assert(bytes@.skip(pos as int).skip(p1 - pos) =~= bytes@.skip(p1 as int));
        assert(dec_local_entries(bytes@.skip(p as int), 0, prev) == Ok::<
            (Seq<(u32, Seq<(u32, Seq<char>)>)>, int),
            DecodeError,
        >((seq![], 0)));
        assert(entries.deep_view() + seq![] =~= entries.deep_view());
    }
    Ok((IndexMap { entries }, p))
}

impl NameSection {
    /// Structural well-formedness: the model is well-formed, and the stored
    /// entry vectors are sorted at every level, so that later insertions
    /// meet the map's contracts.  Decoding only ever produces such values.
    pub open spec fn wf(self) -> bool {
        &&& section_wf(self@)
        &&& match self {
            NameSection::Function(f) => keys_sorted(f.names@),
            NameSection::Local(l) => keys_sorted(l.local_names@) && forall|j: int|
                0 <= j < l.local_names@.len() ==> keys_sorted((#[trigger] l.local_names@[j]).1@),
            _ => true,
        }
    }

    /// Reads one whole section at `pos`: the value it holds and the
    /// position just after it, or exactly the error that the format assigns
    /// the input: `Truncated` when bytes run short of a declared length or
    /// an unfinished field, `MalformedVarint` for a broken integer field or
    /// tag, `InvalidUtf8` for a name that is not UTF-8, `IndexOrder` for
    /// indices out of order, and `LengthMismatch` when a known payload does
    /// not span exactly its declared length.
    pub fn deserialize(bytes: &Vec<u8>, pos: usize) -> (r: Result<(NameSection, usize), DecodeError>)
        requires
            pos <= bytes@.len(),
        ensures
            match r {
                Ok(p) => {
                    &&& dec_section(bytes@.skip(pos as int)) == Ok::<
                        (SectionModel, int),
                        DecodeError,
                    >((p.0@, p.1 - pos))
                    &&& pos <= p.1 <= bytes@.len()
                    &&& p.0.wf()
                },
                Err(e) => dec_section(bytes@.skip(pos as int)) == Err::<
                    (SectionModel, int),
                    DecodeError,
                >(e),
            },
    {
        let ghost s = bytes@.skip(pos as int);
        proof {
            crate::laws::lemma_section_fidelity(s);
        }
        if pos == bytes.len() {
            return Err(DecodeError::Truncated);
        }
        let tag = bytes[pos];
        assert(tag == s[0]);
        if tag >= 128 {
            return Err(DecodeError::MalformedVarint);
        }
        proof {
            assert(s.skip(1) =~= bytes@.skip(pos as int + 1));
        }
        let (plen, p1) = match decode_var_u32(bytes, pos + 1) {
            Ok(x) => x,
            Err(e) => {
                return Err(e);
            },
        };
        if bytes.len() - p1 < plen as usize {
            return Err(DecodeError::Truncated);
        }
        let end = p1 + plen as usize;
        let payload = copy_range(bytes, p1, end);
        proof {
            assert(payload@ =~= s.subrange(1 + (p1 - (pos + 1)), 1 + (p1 - (pos + 1)) + plen));
            assert(payload@.skip(0) =~= payload@);
        }
        if tag == 0 {
            match decode_name(&payload, 0) {
                Ok((name, used)) => {
                    if used == payload.len() {
                        Ok((NameSection::Module(ModuleNameSection { name }), end))
                    } else {
                        Err(DecodeError::LengthMismatch)
                    }
                },
                Err(e) => Err(e),
            }
        } else if tag == 1 {
            match decode_name_map(&payload, 0) {
                Ok((names, used)) => {
                    if used == payload.len() {
                        Ok((NameSection::Function(FunctionNameSection { names }), end))
                    } else {
                        Err(DecodeError::LengthMismatch)
                    }
                },
                Err(e) => Err(e),
            }
        } else if tag == 2 {
            match decode_local_map(&payload, 0) {
                Ok((local_names, used)) => {
                    if used == payload.len() {
                        Ok((NameSection::Local(LocalNameSection { local_names }), end))
                    } else {
                        Err(DecodeError::LengthMismatch)
                    }
                },
                Err(e) => Err(e),
            }
        } else {
            Ok((NameSection::Unparsed { name_type: tag, name_payload: payload }, end))
        }
    }
}

} // verus!
