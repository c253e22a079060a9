//! The record codec: the field catalogs, decoded field values, and the
//! type-length-value encoding of fields and whole records.
//!
//! A record (`Item`) is a set of fields with unique kinds. On disk every
//! field is a little-endian 4-byte length, a 1-byte tag, the payload, and
//! zero padding so that header, payload and padding fill whole 16-byte
//! blocks; a record ends with an `End` sentinel field.
use vstd::prelude::*;
use vstd::slice::slice_to_vec;

use crate::crypto::HMAC;
use crate::PwsError;

verus! {

/// Semantic identity of a field. Identifiers are stable catalog entries.
#[derive(PartialEq, Eq, Structural, Clone, Copy, Debug, Hash)]
pub enum Kind {
    Unknown,
    Version,
    UUID,
    End,
    Group,
    Title,
    Username,
    Notes,
    Password,
    PasswordHistory,
    PasswordPolicy,
    PasswordSymbols,
    CreateTime,
    AccessTime,
    ExpiryTime,
    ModifyTime,
    SClickAction,
    DClickAction,
    Autotype,
    RunCommand,
    Protected,
    Email,
}

/// Shape of a field's value.
#[derive(PartialEq, Eq, Structural, Clone, Copy, Debug, Hash)]
pub enum Type {
    Raw,
    Byte,
    Short,
    Int,
    Text,
}

/// A catalog entry: what a tag means and how its payload is typed.
#[derive(PartialEq, Eq, Structural, Clone, Copy, Debug)]
pub struct Def {
    pub kind: Kind,
    pub tp: Type,
}

/// Which catalog maps tags: the one for the single leading header record,
/// or the one for every entry record after it.
#[derive(PartialEq, Eq, Structural, Clone, Copy, Debug)]
pub enum Catalog {
    Header,
    Data,
}

/// The header catalog: tag byte to definition.
pub open spec fn spec_header_def(tag: u8) -> Option<Def> {
    if tag == 0x00 {
        Some(Def { kind: Kind::Version, tp: Type::Short })
    } else if tag == 0x01 {
        Some(Def { kind: Kind::UUID, tp: Type::Raw })
    } else if tag == 0xff {
        Some(Def { kind: Kind::End, tp: Type::Raw })
    } else {
        None
    }
}

/// The entry catalog: tag byte to definition.
pub open spec fn spec_data_def(tag: u8) -> Option<Def> {
    if tag == 0x01 {
        Some(Def { kind: Kind::UUID, tp: Type::Raw })
    } else if tag == 0x02 {
        Some(Def { kind: Kind::Group, tp: Type::Text })
    } else if tag == 0x03 {
        Some(Def { kind: Kind::Title, tp: Type::Text })
    } else if tag == 0x04 {
        Some(Def { kind: Kind::Username, tp: Type::Text })
    } else if tag == 0x05 {
        Some(Def { kind: Kind::Notes, tp: Type::Text })
    } else if tag == 0x06 {
        Some(Def { kind: Kind::Password, tp: Type::Text })
    } else if tag == 0x07 {
        Some(Def { kind: Kind::CreateTime, tp: Type::Int })
    } else if tag == 0x09 {
        Some(Def { kind: Kind::AccessTime, tp: Type::Int })
    } else if tag == 0x0a {
        Some(Def { kind: Kind::ExpiryTime, tp: Type::Int })
    } else if tag == 0x0c {
        Some(Def { kind: Kind::ModifyTime, tp: Type::Int })
    } else if tag == 0x0e {
        Some(Def { kind: Kind::Autotype, tp: Type::Text })
    } else if tag == 0x0f {
        Some(Def { kind: Kind::PasswordHistory, tp: Type::Text })
    } else if tag == 0x10 {
        Some(Def { kind: Kind::PasswordPolicy, tp: Type::Text })
    } else if tag == 0x12 {
        Some(Def { kind: Kind::RunCommand, tp: Type::Text })
    } else if tag == 0x13 {
        Some(Def { kind: Kind::DClickAction, tp: Type::Short })
    } else if tag == 0x14 {
        Some(Def { kind: Kind::Email, tp: Type::Text })
    } else if tag == 0x15 {
        Some(Def { kind: Kind::Protected, tp: Type::Byte })
    } else if tag == 0x16 {
        Some(Def { kind: Kind::PasswordSymbols, tp: Type::Text })
    } else if tag == 0x17 {
        Some(Def { kind: Kind::SClickAction, tp: Type::Short })
    } else if tag == 0xff {
        Some(Def { kind: Kind::End, tp: Type::Raw })
    } else {
        None
    }
}

/// Tag lookup in the chosen catalog.
pub open spec fn spec_lookup(c: Catalog, tag: u8) -> Option<Def> {
    match c {
        Catalog::Header => spec_header_def(tag),
        Catalog::Data => spec_data_def(tag),
    }
}

/// The derived reverse mapping, entry catalog first, header catalog for the
/// kinds only it holds. `Unknown` has no tag.
pub open spec fn spec_tag_for(kind: Kind) -> Option<u8> {
    match kind {
        Kind::Unknown => None,
        Kind::Version => Some(0x00u8),
        Kind::UUID => Some(0x01u8),
        Kind::End => Some(0xffu8),
        Kind::Group => Some(0x02u8),
        Kind::Title => Some(0x03u8),
        Kind::Username => Some(0x04u8),
        Kind::Notes => Some(0x05u8),
        Kind::Password => Some(0x06u8),
        Kind::CreateTime => Some(0x07u8),
        Kind::AccessTime => Some(0x09u8),
        Kind::ExpiryTime => Some(0x0au8),
        Kind::ModifyTime => Some(0x0cu8),
        Kind::Autotype => Some(0x0eu8),
        Kind::PasswordHistory => Some(0x0fu8),
        Kind::PasswordPolicy => Some(0x10u8),
        Kind::RunCommand => Some(0x12u8),
        Kind::DClickAction => Some(0x13u8),
        Kind::Email => Some(0x14u8),
        Kind::Protected => Some(0x15u8),
        Kind::PasswordSymbols => Some(0x16u8),
        Kind::SClickAction => Some(0x17u8),
    }
}

/// Tag lookup, executable form.
pub fn lookup(c: Catalog, tag: u8) -> (r: Option<Def>)
    ensures
        r == spec_lookup(c, tag),
{
    match c {
        Catalog::Header => {
            if tag == 0x00 {
                Some(Def { kind: Kind::Version, tp: Type::Short })
            } else if tag == 0x01 {
                Some(Def { kind: Kind::UUID, tp: Type::Raw })
            } else if tag == 0xff {
                Some(Def { kind: Kind::End, tp: Type::Raw })
            } else {
                None
            }
        },
        Catalog::Data => {
            if tag == 0x01 {
                Some(Def { kind: Kind::UUID, tp: Type::Raw })
            } else if tag == 0x02 {
                Some(Def { kind: Kind::Group, tp: Type::Text })
            } else if tag == 0x03 {
                Some(Def { kind: Kind::Title, tp: Type::Text })
            } else if tag == 0x04 {
                Some(Def { kind: Kind::Username, tp: Type::Text })
            } else if tag == 0x05 {
                Some(Def { kind: Kind::Notes, tp: Type::Text })
            } else if tag == 0x06 {
                Some(Def { kind: Kind::Password, tp: Type::Text })
            } else if tag == 0x07 {
                Some(Def { kind: Kind::CreateTime, tp: Type::Int })
            } else if tag == 0x09 {
                Some(Def { kind: Kind::AccessTime, tp: Type::Int })
            } else if tag == 0x0a {
                Some(Def { kind: Kind::ExpiryTime, tp: Type::Int })
            } else if tag == 0x0c {
                Some(Def { kind: Kind::ModifyTime, tp: Type::Int })
            } else if tag == 0x0e {
                Some(Def { kind: Kind::Autotype, tp: Type::Text })
            } else if tag == 0x0f {
                Some(Def { kind: Kind::PasswordHistory, tp: Type::Text })
            } else if tag == 0x10 {
                Some(Def { kind: Kind::PasswordPolicy, tp: Type::Text })
            } else if tag == 0x12 {
                Some(Def { kind: Kind::RunCommand, tp: Type::Text })
            } else if tag == 0x13 {
                Some(Def { kind: Kind::DClickAction, tp: Type::Short })
            } else if tag == 0x14 {
                Some(Def { kind: Kind::Email, tp: Type::Text })
            } else if tag == 0x15 {
                Some(Def { kind: Kind::Protected, tp: Type::Byte })
            } else if tag == 0x16 {
                Some(Def { kind: Kind::PasswordSymbols, tp: Type::Text })
            } else if tag == 0x17 {
                Some(Def { kind: Kind::SClickAction, tp: Type::Short })
            } else if tag == 0xff {
                Some(Def { kind: Kind::End, tp: Type::Raw })
            } else {
                None
            }
        },
    }
}

/// Reverse lookup, executable form.
pub fn tag_for(kind: Kind) -> (r: Option<u8>)
    ensures
        r == spec_tag_for(kind),
{
    match kind {
        Kind::Unknown => None,
        Kind::Version => Some(0x00u8),
        Kind::UUID => Some(0x01u8),
        Kind::End => Some(0xffu8),
        Kind::Group => Some(0x02u8),
        Kind::Title => Some(0x03u8),
        Kind::Username => Some(0x04u8),
        Kind::Notes => Some(0x05u8),
        Kind::Password => Some(0x06u8),
        Kind::CreateTime => Some(0x07u8),
        Kind::AccessTime => Some(0x09u8),
        Kind::ExpiryTime => Some(0x0au8),
        Kind::ModifyTime => Some(0x0cu8),
        Kind::Autotype => Some(0x0eu8),
        Kind::PasswordHistory => Some(0x0fu8),
        Kind::PasswordPolicy => Some(0x10u8),
        Kind::RunCommand => Some(0x12u8),
        Kind::DClickAction => Some(0x13u8),
        Kind::Email => Some(0x14u8),
        Kind::Protected => Some(0x15u8),
        Kind::PasswordSymbols => Some(0x16u8),
        Kind::SClickAction => Some(0x17u8),
    }
}

/// Within one catalog two tags never share a kind, and the reverse mapping
/// inverts the forward one.
pub proof fn lemma_catalog_bijection(c: Catalog)
    ensures
        forall|tag: u8| #![trigger spec_lookup(c, tag)]
            spec_lookup(c, tag) matches Some(def) ==> spec_tag_for(def.kind) == Some(tag),
        forall|t1: u8, t2: u8|
            #![trigger spec_lookup(c, t1), spec_lookup(c, t2)]
            spec_lookup(c, t1) matches Some(d1) ==> spec_lookup(c, t2) matches Some(d2)
                ==> d1.kind == d2.kind ==> t1 == t2,
{
}

/// A decoded field value.
#[derive(PartialEq, Eq, Debug, Clone)]
pub enum Data {
    Raw(Vec<u8>),
    Byte(u8),
    Short(u16),
    Int(u32),
    Text(String),
}

/// The mathematical shape of a decoded field value.
pub enum DataView {
    Raw(Seq<u8>),
    Byte(u8),
    Short(u16),
    Int(u32),
    Text(Seq<char>),
}

impl View for Data {
    type V = DataView;

    open spec fn view(&self) -> DataView {
        match self {
            Data::Raw(v) => DataView::Raw(v@),
            Data::Byte(b) => DataView::Byte(*b),
            Data::Short(v) => DataView::Short(*v),
            Data::Int(v) => DataView::Int(*v),
            Data::Text(s) => DataView::Text(s@),
        }
    }
}

/// Whether a value has the shape a catalog entry calls for.
pub open spec fn spec_data_matches(d: DataView, tp: Type) -> bool {
    match d {
        DataView::Raw(_) => tp == Type::Raw,
        DataView::Byte(_) => tp == Type::Byte,
        DataView::Short(_) => tp == Type::Short,
        DataView::Int(_) => tp == Type::Int,
        DataView::Text(_) => tp == Type::Text,
    }
}

/// A decoded field: a catalog entry and a value of its shape.
#[derive(Debug, Clone, PartialEq, Eq)]
pub struct Field {
    pub def: Def,
    pub data: Data,
}

/// A well-formed field of an entry record: a real catalog entry (not the
/// sentinel, not unknown), with a value of the catalogued shape.
pub open spec fn spec_wf_field(f: Field, c: Catalog) -> bool {
    &&& f.def.kind != Kind::End
    &&& f.def.kind != Kind::Unknown
    &&& spec_tag_for(f.def.kind) matches Some(tag) && spec_lookup(c, tag) == Some(f.def)
    &&& spec_data_matches(f.data@, f.def.tp)
}

/// The mapping a sequence of fields denotes: later fields win.
pub open spec fn spec_item_map(fs: Seq<Field>) -> Map<Kind, DataView>
    decreases fs.len(),
{
    if fs.len() == 0 {
        Map::empty()
    } else {
        spec_item_map(fs.drop_last()).insert(fs.last().def.kind, fs.last().data@)
    }
}

/// One record: a mapping from kind to value, keys unique.
#[derive(Debug, PartialEq, Eq)]
pub struct Item {
    pub fields: Vec<Field>,
}

impl View for Item {
    type V = Map<Kind, DataView>;

    open spec fn view(&self) -> Map<Kind, DataView> {
        spec_item_map(self.fields@)
    }
}

impl Item {
    /// The fields, in deterministic (insertion) order.
    pub open spec fn fields_spec(self) -> Seq<Field> {
        self.fields@
    }

    /// Well-formed for the given catalog: every field well-formed, kinds
    /// unique.
    pub open spec fn wf_in(self, c: Catalog) -> bool {
        &&& forall|i: int| 0 <= i < self.fields@.len() ==> spec_wf_field(#[trigger] self.fields@[i], c)
        &&& forall|i: int, j: int|
            0 <= i < j < self.fields@.len() ==> self.fields@[i].def.kind != self.fields@[j].def.kind
    }

    /// Well-formed as an entry record.
    pub open spec fn wf(self) -> bool {
        self.wf_in(Catalog::Data)
    }
}

/// The domain of a field sequence's mapping is exactly its set of kinds.
pub proof fn lemma_item_map_contains(fs: Seq<Field>, k: Kind)
    ensures
        spec_item_map(fs).contains_key(k) <==> exists|i: int|
            0 <= i < fs.len() && fs[i].def.kind == k,
    decreases fs.len(),
{
    if fs.len() > 0 {
        lemma_item_map_contains(fs.drop_last(), k);
        if fs.last().def.kind == k {
            assert(fs[fs.len() - 1].def.kind == k);
        } else {
            if spec_item_map(fs).contains_key(k) {
                let i = choose|i: int| 0 <= i < fs.drop_last().len() && fs.drop_last()[i].def.kind == k;
                assert(fs[i].def.kind == k);
            }
            if exists|i: int| 0 <= i < fs.len() && fs[i].def.kind == k {
                let i = choose|i: int| 0 <= i < fs.len() && fs[i].def.kind == k;
                assert(i < fs.len() - 1);
                assert(fs.drop_last()[i].def.kind == k);
            }
        }
    }
}

/// With unique kinds, the mapping of a field sequence sends each present
/// kind to that field's value.
pub proof fn lemma_item_map_index(fs: Seq<Field>, i: int)
    requires
        0 <= i < fs.len(),
        forall|a: int, b: int| 0 <= a < b < fs.len() ==> fs[a].def.kind != fs[b].def.kind,
    ensures
        spec_item_map(fs).contains_key(fs[i].def.kind),
        spec_item_map(fs)[fs[i].def.kind] == fs[i].data@,
    decreases fs.len(),
{
    if i == fs.len() - 1 {
    } else {
        lemma_item_map_index(fs.drop_last(), i);
        assert(fs.drop_last()[i] == fs[i]);
        assert(fs.last().def.kind != fs[i].def.kind);
    }
}

/// Removing the field of a kind removes exactly that key from the mapping.
pub proof fn lemma_item_map_remove(fs: Seq<Field>, i: int)
    requires
        0 <= i < fs.len(),
        forall|a: int, b: int| 0 <= a < b < fs.len() ==> fs[a].def.kind != fs[b].def.kind,
    ensures
        spec_item_map(fs.remove(i)) == spec_item_map(fs).remove(fs[i].def.kind),
    decreases fs.len(),
{
    let k = fs[i].def.kind;
    if i == fs.len() - 1 {
        assert(fs.remove(i) =~= fs.drop_last());
        lemma_item_map_contains(fs.drop_last(), k);
        assert(!spec_item_map(fs.drop_last()).contains_key(k));
        assert(spec_item_map(fs.drop_last()) =~= spec_item_map(fs).remove(k));
    } else {
        let shorter = fs.drop_last();
        lemma_item_map_remove(shorter, i);
        assert(fs.remove(i).drop_last() =~= shorter.remove(i));
        assert(fs.remove(i).last() == fs.last());
        assert(spec_item_map(fs.remove(i)) == spec_item_map(shorter.remove(i)).insert(
            fs.last().def.kind,
            fs.last().data@,
        ));
        assert(fs.last().def.kind != k);
        assert(spec_item_map(shorter).remove(k).insert(fs.last().def.kind, fs.last().data@)
            =~= spec_item_map(shorter).insert(fs.last().def.kind, fs.last().data@).remove(k));
    }
}

/// An empty record.
pub fn new() -> (r: Item)
    ensures
        r@ == Map::<Kind, DataView>::empty(),
        r.wf_in(Catalog::Header),
        r.wf_in(Catalog::Data),
        r.fields_spec().len() == 0,
{
    let r = Item { fields: Vec::new() };
    r
}

impl Item {
    /// The fields as a vector, for callers that walk a record.
    pub fn iter(&self) -> (r: &Vec<Field>)
        ensures
            r@ == self.fields_spec(),
    {
        &self.fields
    }

    /// Look a kind up; `Some` exactly when the record holds it.
    pub fn get(&self, k: Kind) -> (r: Option<&Data>)
        requires
            self.wf_in(Catalog::Header) || self.wf_in(Catalog::Data),
        ensures
            match r {
                Some(d) => self@.contains_key(k) && d@ == self@[k],
                None => !self@.contains_key(k),
            },
    {
        let n = self.fields.len();
        let mut i: usize = 0;
        while i < n
            invariant
                n == self.fields@.len(),
                i <= n,
                forall|j: int| 0 <= j < i ==> self.fields@[j].def.kind != k,
                forall|a: int, b: int|
                    0 <= a < b < self.fields@.len() ==> self.fields@[a].def.kind
                        != self.fields@[b].def.kind,
            decreases n - i,
        {
            if self.fields[i].def.kind == k {
                proof {
                    lemma_item_map_index(self.fields@, i as int);
                }
                return Some(&self.fields[i].data);
            }
            i = i + 1;
        }
        proof {
            lemma_item_map_contains(self.fields@, k);
        }
        None
    }

    /// Replace or add the field of `f`'s kind, keeping kinds unique.
    fn put(&mut self, f: Field)
        requires
            ({
                let fs = old(self).fields@;
                forall|a: int, b: int| 0 <= a < b < fs.len() ==> fs[a].def.kind != fs[b].def.kind
            }),
        ensures
            final(self)@ == old(self)@.insert(f.def.kind, f.data@),
            final(self).fields_spec().len() <= old(self).fields_spec().len() + 1,
            ({
                let fs0 = old(self).fields@;
                let fs1 = final(self).fields@;
                &&& forall|i: int|
                    0 <= i < fs1.len() ==> (#[trigger] fs1[i] == f || exists|j: int|
                        0 <= j < fs0.len() && fs1[i] == fs0[j])
                &&& forall|a: int, b: int|
                    0 <= a < b < fs1.len() ==> fs1[a].def.kind != fs1[b].def.kind
            }),
    {
        let ghost fs0 = self.fields@;
        let n = self.fields.len();
        let mut i: usize = 0;
        while i < n
            invariant
                self.fields@ == fs0,
                fs0 == old(self).fields@,
                n == fs0.len(),
                i <= n,
                forall|j: int| 0 <= j < i ==> fs0[j].def.kind != f.def.kind,
                forall|a: int, b: int| 0 <= a < b < fs0.len() ==> fs0[a].def.kind != fs0[b].def.kind,
            decreases n - i,
        {
            if self.fields[i].def.kind == f.def.kind {
                proof {
                    lemma_item_map_remove(fs0, i as int);
                }
                let _ = self.fields.remove(i);
                self.fields.push(f);
                proof {
                    assert(self.fields@.drop_last() =~= fs0.remove(i as int));
                    assert(spec_item_map(self.fields@) =~= spec_item_map(fs0).insert(
                        f.def.kind,
                        f.data@,
                    ));
                    assert forall|a: int, b: int|
                        0 <= a < b < self.fields@.len() implies self.fields@[a].def.kind
                        != self.fields@[b].def.kind by {
                        if b == self.fields@.len() - 1 {
                            if a < i {
                                assert(self.fields@[a] == fs0[a]);
                            } else {
                                assert(self.fields@[a] == fs0[a + 1]);
                            }
                        } else {
                            if a < i {
                                assert(self.fields@[a] == fs0[a]);
                            } else {
                                assert(self.fields@[a] == fs0[a + 1]);
                            }
                            if b < i {
                                assert(self.fields@[b] == fs0[b]);
                            } else {
                                assert(self.fields@[b] == fs0[b + 1]);
                            }
                        }
                    }
                }
                return ;
            }
            i = i + 1;
        }
        self.fields.push(f);
        proof {
            assert(self.fields@.drop_last() =~= fs0);
        }
    }

    /// Insert a value under a kind of the entry catalog. A kind outside the
    /// catalog, or a value of the wrong shape for it, leaves the record
    /// unchanged — such a field could never be encoded and read back.
    pub fn insert(&mut self, kind: Kind, data: Data)
        requires
            old(self).wf(),
        ensures
            final(self).wf(),
            ({
                let accepted = {
                    &&& spec_tag_for(kind) matches Some(tag) && spec_lookup(Catalog::Data, tag)
                        matches Some(def) && def.kind == kind && spec_data_matches(data@, def.tp)
                    &&& kind != Kind::End
                    &&& kind != Kind::Unknown
                };
                if accepted {
                    final(self)@ == old(self)@.insert(kind, data@)
                } else {
                    *final(self) == *old(self)
                }
            }),
    {
        if matches!(kind, Kind::End) || matches!(kind, Kind::Unknown) {
            return ;
        }
        let tag_opt = tag_for(kind);
        match tag_opt {
            None => {},
            Some(tag) => {
                match lookup(Catalog::Data, tag) {
                    None => {},
                    Some(def) => {
                        if def.kind == kind && data_matches(&data, def.tp) {
                            self.put(Field { def, data });
                        }
                    },
                }
            },
        }
    }
}

/// Whether a value has the shape a catalog entry calls for, executable form.
pub fn data_matches(d: &Data, tp: Type) -> (r: bool)
    ensures
        r == spec_data_matches(d@, tp),
{
    match d {
        Data::Raw(_) => matches!(tp, Type::Raw),
        Data::Byte(_) => matches!(tp, Type::Byte),
        Data::Short(_) => matches!(tp, Type::Short),
        Data::Int(_) => matches!(tp, Type::Int),
        Data::Text(_) => matches!(tp, Type::Text),
    }
}

} // verus!

verus! {

/// Padding after a `len`-byte payload: the 5-byte length-and-tag header,
/// payload and padding together fill whole 16-byte blocks.
pub open spec fn spec_pad_len(len: nat) -> nat {
    ((16 - ((5 + len) % 16)) % 16) as nat
}

/// Padding length, executable form.
pub fn pad_len(len: usize) -> (r: usize)
    requires
        len < usize::MAX - 5,
    ensures
        r == spec_pad_len(len as nat),
        (5 + len + r) % 16 == 0,
        r < 16,
{
    let rem: usize = (5 + len) % 16;
    if rem == 0 {
        0
    } else {
        16 - rem
    }
}

/// A 4-byte little-endian rendering of a 32-bit value.
pub open spec fn spec_le32(n: u32) -> Seq<u8> {
    seq![
        (n & 0xff) as u8,
        ((n >> 8) & 0xff) as u8,
        ((n >> 16) & 0xff) as u8,
        ((n >> 24) & 0xff) as u8,
    ]
}

/// The value of 4 little-endian bytes.
pub open spec fn spec_le32_val(b: Seq<u8>) -> u32
    recommends
        b.len() >= 4,
{
    (b[0] as u32) | ((b[1] as u32) << 8) | ((b[2] as u32) << 16) | ((b[3] as u32) << 24)
}

/// Reading back 4 little-endian bytes restores the value.
pub proof fn lemma_le32_roundtrip(n: u32)
    ensures
        spec_le32(n).len() == 4,
        spec_le32_val(spec_le32(n)) == n,
{
    let b = spec_le32(n);
    assert(b[0] == (n & 0xff) as u8);
    assert(b[1] == ((n >> 8) & 0xff) as u8);
    assert(b[2] == ((n >> 16) & 0xff) as u8);
    assert(b[3] == ((n >> 24) & 0xff) as u8);
    assert((((n & 0xff) as u8) as u32) | ((((n >> 8) & 0xff) as u8) as u32) << 8 | ((((n >> 16)
        & 0xff) as u8) as u32) << 16 | ((((n >> 24) & 0xff) as u8) as u32) << 24 == n)
        by (bit_vector);
}

/// `n` zero bytes.
pub open spec fn spec_zeros(n: nat) -> Seq<u8> {
    Seq::new(n, |i: int| 0u8)
}

/// What `String::from_utf8_lossy` returns for the given bytes.
pub uninterp spec fn spec_utf8_lossy(bytes: Seq<u8>) -> Seq<char>;

/// Relies on `String::from_utf8_lossy`: the result depends on the bytes
/// alone, and on valid UTF-8 it is exactly the decoded character sequence.
#[verifier::external_body]
pub(crate) fn utf8_lossy(bytes: &[u8]) -> (r: String)
    ensures
        r@ == spec_utf8_lossy(bytes@),
        vstd::utf8::valid_utf8(bytes@) ==> r@ == vstd::utf8::decode_utf8(bytes@),
{
    String::from_utf8_lossy(bytes).into_owned()
}

/// The lenient text reading the codec uses: exact UTF-8 decoding where the
/// bytes are valid, replacement characters where they are not.
pub open spec fn spec_lossy_text(p: Seq<u8>) -> Seq<char> {
    if vstd::utf8::valid_utf8(p) {
        vstd::utf8::decode_utf8(p)
    } else {
        spec_utf8_lossy(p)
    }
}

/// How a payload is read under a catalog type. `None` when the payload is
/// shorter than the type's width.
pub open spec fn spec_decode(tp: Type, p: Seq<u8>) -> Option<DataView> {
    match tp {
        Type::Raw => Some(DataView::Raw(p)),
        Type::Byte => if p.len() >= 1 {
            Some(DataView::Byte(p[0]))
        } else {
            None
        },
        Type::Short => if p.len() >= 2 {
            Some(DataView::Short((p[0] as u16) | ((p[1] as u16) << 8)))
        } else {
            None
        },
        Type::Int => if p.len() >= 4 {
            Some(DataView::Int(spec_le32_val(p)))
        } else {
            None
        },
        Type::Text => Some(DataView::Text(spec_lossy_text(p))),
    }
}

/// How a value is rendered to payload bytes.
pub open spec fn spec_encode(d: Data) -> Seq<u8> {
    match d {
        Data::Raw(v) => v@,
        Data::Byte(b) => seq![b],
        Data::Short(v) => seq![(v & 0xff) as u8, ((v >> 8) & 0xff) as u8],
        Data::Int(v) => spec_le32(v),
        Data::Text(s) => vstd::utf8::encode_utf8(s@),
    }
}

/// A decoded payload always has the shape of the type it was read under.
pub proof fn lemma_decode_matches(tp: Type, p: Seq<u8>)
    ensures
        spec_decode(tp, p) matches Some(dv) ==> spec_data_matches(dv, tp),
{
}

/// Reading a rendered value back under its own type restores it.
pub proof fn lemma_decode_encode(d: Data, tp: Type)
    requires
        spec_data_matches(d@, tp),
    ensures
        spec_decode(tp, spec_encode(d)) == Some(d@),
{
    match d {
        Data::Raw(v) => {},
        Data::Byte(b) => {
            assert(spec_encode(d)[0] == b);
        },
        Data::Short(v) => {
            let p = spec_encode(d);
            assert(p[0] == (v & 0xff) as u8 && p[1] == ((v >> 8) & 0xff) as u8);
            assert((((v & 0xff) as u8) as u16) | ((((v >> 8) & 0xff) as u8) as u16) << 8 == v)
                by (bit_vector);
        },
        Data::Int(v) => {
            lemma_le32_roundtrip(v);
        },
        Data::Text(s) => {
            broadcast use vstd::utf8::encode_utf8_valid_utf8;
            broadcast use vstd::utf8::encode_utf8_decode_utf8;

            assert(spec_lossy_text(vstd::utf8::encode_utf8(s@)) == s@);
        },
    }
}

/// The full on-disk bytes of one field: length, tag, payload, padding.
pub open spec fn spec_field_bytes(tag: u8, p: Seq<u8>) -> Seq<u8>
    recommends
        p.len() <= u32::MAX,
{
    spec_le32(p.len() as u32) + seq![tag] + p + spec_zeros(spec_pad_len(p.len()))
}

/// The on-disk bytes of the `End` sentinel field.
pub open spec fn spec_end_bytes() -> Seq<u8> {
    spec_field_bytes(0xffu8, Seq::<u8>::empty())
}

/// The sentinel is one whole block.
pub proof fn lemma_end_bytes_len()
    ensures
        spec_end_bytes().len() == 16,
{
    assert(spec_pad_len(0) == 11);
}

/// One step of field parsing at position `i`: `None` is a clean end of
/// stream (no room for a length header); `Some(None)` a truncated field;
/// `Some(Some((tag, payload, next)))` a parsed field. Padding is skipped,
/// but never past the end of the buffer.
pub open spec fn sp_field(b: Seq<u8>, i: int) -> Option<Option<(u8, Seq<u8>, int)>>
    recommends
        0 <= i <= b.len(),
{
    if i + 4 > b.len() {
        None
    } else if i + 5 > b.len() {
        Some(None)
    } else {
        let l = spec_le32_val(b.subrange(i, i + 4)) as int;
        if i + 5 + l > b.len() {
            Some(None)
        } else {
            let tag = b[i + 4];
            let p = b.subrange(i + 5, i + 5 + l);
            let next0 = i + 5 + l + spec_pad_len(l as nat);
            let next = if next0 > b.len() {
                b.len() as int
            } else {
                next0
            };
            Some(Some((tag, p, next)))
        }
    }
}

/// A parsed field sits inside the buffer and advances the position.
pub proof fn lemma_sp_field_range(b: Seq<u8>, i: int)
    requires
        0 <= i <= b.len(),
    ensures
        sp_field(b, i) matches Some(Some((tag, p, next))) ==> i + 5 + p.len() <= next <= b.len(),
{
}

/// Parsing one record from position `i`: fields accumulate into `acc`
/// (later kinds win, unknown tags are dropped) until an `End` field. `None`
/// is a clean end of stream before any field; `Some(None)` a corrupt
/// stream — truncated field, payload shorter than its type, or end of
/// stream mid-record; `Some(Some((map, next, mac)))` a record, the position
/// after it, and every payload byte read, in order, `End`'s included.
pub open spec fn sp_item_rec(
    b: Seq<u8>,
    i: int,
    c: Catalog,
    acc: Map<Kind, DataView>,
    got: bool,
    mac: Seq<u8>,
) -> Option<Option<(Map<Kind, DataView>, int, Seq<u8>)>>
    recommends
        0 <= i <= b.len(),
    decreases b.len() - i,
{
    match sp_field(b, i) {
        None => if got {
            Some(None)
        } else {
            None
        },
        Some(None) => Some(None),
        Some(Some((tag, p, next))) => {
            if next <= i || next > b.len() {
                Some(None)
            } else {
                match spec_lookup(c, tag) {
                    Some(def) => {
                        if def.kind == Kind::End {
                            Some(Some((acc, next, mac + p)))
                        } else {
                            match spec_decode(def.tp, p) {
                                Some(dv) => sp_item_rec(
                                    b,
                                    next,
                                    c,
                                    acc.insert(def.kind, dv),
                                    true,
                                    mac + p,
                                ),
                                None => Some(None),
                            }
                        }
                    },
                    None => sp_item_rec(b, next, c, acc, true, mac + p),
                }
            }
        },
    }
}

/// Parsing one record from scratch.
pub open spec fn sp_item(b: Seq<u8>, i: int, c: Catalog) -> Option<
    Option<(Map<Kind, DataView>, int, Seq<u8>)>,
> {
    sp_item_rec(b, i, c, Map::empty(), false, Seq::empty())
}

/// A parsed record advances the position and stays inside the buffer.
pub proof fn lemma_sp_item_rec_range(
    b: Seq<u8>,
    i: int,
    c: Catalog,
    acc: Map<Kind, DataView>,
    got: bool,
    mac: Seq<u8>,
)
    requires
        0 <= i <= b.len(),
    ensures
        sp_item_rec(b, i, c, acc, got, mac) matches Some(Some((m, next, mp))) ==> i < next
            <= b.len(),
    decreases b.len() - i,
{
    match sp_field(b, i) {
        None => {},
        Some(None) => {},
        Some(Some((tag, p, next))) => {
            if i < next <= b.len() {
                match spec_lookup(c, tag) {
                    Some(def) => {
                        if def.kind != Kind::End {
                            match spec_decode(def.tp, p) {
                                Some(dv) => lemma_sp_item_rec_range(
                                    b,
                                    next,
                                    c,
                                    acc.insert(def.kind, dv),
                                    true,
                                    mac + p,
                                ),
                                None => {},
                            }
                        }
                    },
                    None => lemma_sp_item_rec_range(b, next, c, acc, true, mac + p),
                }
            }
        },
    }
}

/// Parsing records from position `i` until the stream is exhausted: `None`
/// is a corrupt stream; otherwise the records in encounter order, and every
/// payload byte read.
pub open spec fn sp_items_rec(
    b: Seq<u8>,
    i: int,
    c: Catalog,
    acc: Seq<Map<Kind, DataView>>,
    mac: Seq<u8>,
) -> Option<(Seq<Map<Kind, DataView>>, Seq<u8>)>
    recommends
        0 <= i <= b.len(),
    decreases b.len() - i,
{
    match sp_item(b, i, c) {
        None => Some((acc, mac)),
        Some(None) => None,
        Some(Some((m, next, mp))) => {
            if next <= i || next > b.len() {
                None
            } else {
                sp_items_rec(b, next, c, acc.push(m), mac + mp)
            }
        },
    }
}

/// Parsing all records from scratch.
pub open spec fn sp_items(b: Seq<u8>, i: int, c: Catalog) -> Option<
    (Seq<Map<Kind, DataView>>, Seq<u8>),
> {
    sp_items_rec(b, i, c, Seq::empty(), Seq::empty())
}

/// No catalog entry means `Unknown` or `End` where it should not.
pub proof fn lemma_catalog_kinds(c: Catalog)
    ensures
        forall|tag: u8| #![trigger spec_lookup(c, tag)]
            spec_lookup(c, tag) matches Some(def) ==> def.kind != Kind::Unknown,
{
}

} // verus!

verus! {

/// Append a 32-bit value as 4 little-endian bytes.
pub(crate) fn push_le32(out: &mut Vec<u8>, n: u32)
    ensures
        final(out)@ == old(out)@ + spec_le32(n),
{
    out.push((n & 0xff) as u8);
    out.push(((n >> 8) & 0xff) as u8);
    out.push(((n >> 16) & 0xff) as u8);
    out.push(((n >> 24) & 0xff) as u8);
    proof {
        assert(out@ =~= old(out)@ + spec_le32(n));
    }
}

/// Append a whole slice.
pub(crate) fn push_bytes(out: &mut Vec<u8>, data: &[u8])
    ensures
        final(out)@ == old(out)@ + data@,
{
    let mut tail = slice_to_vec(data);
    out.append(&mut tail);
}

/// Append `n` zero bytes.
pub(crate) fn push_zeros(out: &mut Vec<u8>, n: usize)
    ensures
        final(out)@ == old(out)@ + spec_zeros(n as nat),
{
    let mut i: usize = 0;
    while i < n
        invariant
            i <= n,
            out@ == old(out)@ + spec_zeros(i as nat),
        decreases n - i,
    {
        out.push(0);
        proof {
            assert(out@ =~= old(out)@ + spec_zeros((i + 1) as nat));
        }
        i = i + 1;
    }
}

/// Render a value to payload bytes.
pub fn encode_data(d: &Data) -> (r: Vec<u8>)
    ensures
        r@ == spec_encode(*d),
{
    match d {
        Data::Raw(v) => slice_to_vec(v.as_slice()),
        Data::Byte(b) => {
            let mut out: Vec<u8> = Vec::new();
            out.push(*b);
            proof {
                assert(out@ =~= spec_encode(*d));
            }
            out
        },
        Data::Short(v) => {
            let mut out: Vec<u8> = Vec::new();
            out.push((*v & 0xff) as u8);
            out.push(((*v >> 8) & 0xff) as u8);
            proof {
                assert(out@ =~= spec_encode(*d));
            }
            out
        },
        Data::Int(v) => {
            let mut out: Vec<u8> = Vec::new();
            push_le32(&mut out, *v);
            proof {
                assert(out@ =~= spec_encode(*d));
            }
            out
        },
        Data::Text(s) => slice_to_vec(s.as_str().as_bytes()),
    }
}

/// Read a payload under a catalog type; `Err` when it is shorter than the
/// type's width.
pub fn decode_data(def: Def, payload: &[u8]) -> (r: Result<Data, PwsError>)
    ensures
        match r {
            Ok(d) => spec_decode(def.tp, payload@) == Some(d@) && spec_data_matches(d@, def.tp),
            Err(e) => spec_decode(def.tp, payload@) is None && e == PwsError::CorruptRecord,
        },
{
    match def.tp {
        Type::Raw => Ok(Data::Raw(slice_to_vec(payload))),
        Type::Byte => {
            if payload.len() >= 1 {
                Ok(Data::Byte(payload[0]))
            } else {
                Err(PwsError::CorruptRecord)
            }
        },
        Type::Short => {
            if payload.len() >= 2 {
                Ok(Data::Short((payload[0] as u16) | ((payload[1] as u16) << 8)))
            } else {
                Err(PwsError::CorruptRecord)
            }
        },
        Type::Int => {
            if payload.len() >= 4 {
                let v = (payload[0] as u32) | ((payload[1] as u32) << 8) | ((payload[2] as u32)
                    << 16) | ((payload[3] as u32) << 24);
                Ok(Data::Int(v))
            } else {
                Err(PwsError::CorruptRecord)
            }
        },
        Type::Text => Ok(Data::Text(utf8_lossy(payload))),
    }
}

impl Field {
    /// Write this field: length, tag, payload, zero padding; the raw
    /// (unpadded) payload goes into the authenticator. `Err` — with nothing
    /// written — exactly when the kind has no tag or the payload cannot
    /// carry a 4-byte length.
    pub fn serialize(&self, out: &mut Vec<u8>, mac: &mut HMAC) -> (r: Result<(), PwsError>)
        ensures
            final(mac).key_spec() == old(mac).key_spec(),
            match r {
                Ok(_) => ({
                    &&& spec_tag_for(self.def.kind) matches Some(tag) && final(out)@ == old(out)@
                        + spec_field_bytes(tag, spec_encode(self.data))
                    &&& spec_len_ok(spec_encode(self.data).len())
                    &&& final(mac).data_spec() == old(mac).data_spec() + spec_encode(self.data)
                }),
                Err(e) => ({
                    &&& (spec_tag_for(self.def.kind) is None || !spec_len_ok(
                        spec_encode(self.data).len(),
                    ))
                    &&& *final(out) == *old(out)
                    &&& *final(mac) == *old(mac)
                    &&& e == PwsError::Format
                }),
            },
    {
        let payload = encode_data(&self.data);
        let tag = match tag_for(self.def.kind) {
            None => {
                return Err(PwsError::Format);
            },
            Some(t) => t,
        };
        if !len_ok(payload.len()) {
            return Err(PwsError::Format);
        }
        mac.update(payload.as_slice());
        push_le32(out, payload.len() as u32);
        out.push(tag);
        push_bytes(out, payload.as_slice());
        let pad = pad_len(payload.len());
        push_zeros(out, pad);
        proof {
            assert(out@ =~= old(out)@ + spec_field_bytes(tag, spec_encode(self.data)));
        }
        Ok(())
    }
}

/// Write one `End` sentinel field: a zero-length payload in one whole
/// block. The authenticator sees its empty payload, which changes nothing.
pub fn serialize_end(out: &mut Vec<u8>, mac: &mut HMAC)
    ensures
        final(mac).key_spec() == old(mac).key_spec(),
        final(mac).data_spec() == old(mac).data_spec(),
        final(out)@ == old(out)@ + spec_end_bytes(),
{
    let empty: [u8; 0] = [];
    mac.update(empty.as_slice());
    push_le32(out, 0);
    out.push(0xff);
    push_zeros(out, 11);
    proof {
        assert(spec_pad_len(0) == 11);
        assert(old(mac).data_spec() + Seq::<u8>::empty() =~= old(mac).data_spec());
        assert(mac.data_spec() =~= old(mac).data_spec());
        assert(out@ =~= old(out)@ + spec_end_bytes());
    }
}

/// Whether a payload length fits the 4-byte length header and the
/// machine's address space with room for header and padding.
pub open spec fn spec_len_ok(n: nat) -> bool {
    n < u32::MAX && n < usize::MAX - 16
}

/// Payload length check, executable form.
pub fn len_ok(n: usize) -> (r: bool)
    ensures
        r == spec_len_ok(n as nat),
{
    n < (u32::MAX as usize) && n < usize::MAX - 16
}

/// Whether every field of a sequence can be written.
pub open spec fn spec_ser_ok(fs: Seq<Field>) -> bool {
    forall|i: int| #![trigger fs[i]]
        0 <= i < fs.len() ==> spec_tag_for(fs[i].def.kind) is Some && spec_len_ok(
            spec_encode(fs[i].data).len(),
        )
}

/// The on-disk bytes of one field.
pub open spec fn spec_ser_field(f: Field) -> Seq<u8>
    recommends
        spec_tag_for(f.def.kind) is Some,
{
    spec_field_bytes(spec_tag_for(f.def.kind).unwrap(), spec_encode(f.data))
}

/// The on-disk bytes of a sequence of fields, in order.
pub open spec fn spec_ser_fields(fs: Seq<Field>) -> Seq<u8>
    decreases fs.len(),
{
    if fs.len() == 0 {
        Seq::empty()
    } else {
        spec_ser_field(fs[0]) + spec_ser_fields(fs.drop_first())
    }
}

/// The raw payload bytes of a sequence of fields, in order — what the
/// authenticator sees.
pub open spec fn spec_fields_payload(fs: Seq<Field>) -> Seq<u8>
    decreases fs.len(),
{
    if fs.len() == 0 {
        Seq::empty()
    } else {
        spec_encode(fs[0].data) + spec_fields_payload(fs.drop_first())
    }
}

/// Writing one more field appends its bytes.
pub proof fn lemma_ser_fields_snoc(fs: Seq<Field>, i: int)
    requires
        0 <= i < fs.len(),
    ensures
        spec_ser_fields(fs.subrange(0, i + 1)) == spec_ser_fields(fs.subrange(0, i))
            + spec_ser_field(fs[i]),
        spec_fields_payload(fs.subrange(0, i + 1)) == spec_fields_payload(fs.subrange(0, i))
            + spec_encode(fs[i].data),
    decreases i,
{
    if i == 0 {
        assert(fs.subrange(0, 1).drop_first() =~= Seq::<Field>::empty());
        assert(fs.subrange(0, 0) =~= Seq::<Field>::empty());
        assert(fs.subrange(0, 1)[0] == fs[0]);
        assert(spec_ser_fields(fs.subrange(0, 1)) =~= spec_ser_fields(fs.subrange(0, 0))
            + spec_ser_field(fs[0]));
        assert(spec_fields_payload(fs.subrange(0, 1)) =~= spec_fields_payload(fs.subrange(0, 0))
            + spec_encode(fs[0].data));
    } else {
        lemma_ser_fields_snoc(fs.drop_first(), i - 1);
        assert(fs.subrange(0, i + 1).drop_first() =~= fs.drop_first().subrange(0, i));
        assert(fs.subrange(0, i).drop_first() =~= fs.drop_first().subrange(0, i - 1));
        assert(fs.subrange(0, i + 1)[0] == fs[0]);
        assert(fs.subrange(0, i)[0] == fs[0]);
        assert(fs.drop_first()[i - 1] == fs[i]);
        assert(spec_ser_fields(fs.subrange(0, i + 1)) =~= spec_ser_fields(fs.subrange(0, i))
            + spec_ser_field(fs[i]));
        assert(spec_fields_payload(fs.subrange(0, i + 1)) =~= spec_fields_payload(
            fs.subrange(0, i),
        ) + spec_encode(fs[i].data));
    }
}

impl Item {
    /// Write every field of this record, in order, without the terminating
    /// sentinel. `Err` — with nothing written — exactly when some field
    /// cannot be rendered.
    pub fn serialize(&self, out: &mut Vec<u8>, mac: &mut HMAC) -> (r: Result<(), PwsError>)
        ensures
            final(mac).key_spec() == old(mac).key_spec(),
            match r {
                Ok(_) => ({
                    &&& spec_ser_ok(self.fields@)
                    &&& final(out)@ == old(out)@ + spec_ser_fields(self.fields@)
                    &&& final(mac).data_spec() == old(mac).data_spec() + spec_fields_payload(
                        self.fields@,
                    )
                }),
                Err(e) => ({
                    &&& !spec_ser_ok(self.fields@)
                    &&& *final(out) == *old(out)
                    &&& *final(mac) == *old(mac)
                    &&& e == PwsError::Format
                }),
            },
    {
        let n = self.fields.len();
        let mut i: usize = 0;
        while i < n
            invariant
                n == self.fields@.len(),
                i <= n,
                forall|j: int| #![trigger self.fields@[j]]
                    0 <= j < i ==> spec_tag_for(self.fields@[j].def.kind) is Some && spec_len_ok(
                        spec_encode(self.fields@[j].data).len(),
                    ),
            decreases n - i,
        {
            let f = &self.fields[i];
            if tag_for(f.def.kind).is_none() {
                return Err(PwsError::Format);
            }
            let payload = encode_data(&f.data);
            if !len_ok(payload.len()) {
                return Err(PwsError::Format);
            }
            i = i + 1;
        }
        let ghost fs = self.fields@;
        let mut i: usize = 0;
        proof {
            assert(fs.subrange(0, 0) =~= Seq::<Field>::empty());
        }
        while i < n
            invariant
                n == self.fields@.len(),
                fs == self.fields@,
                i <= n,
                spec_ser_ok(fs),
                mac.key_spec() == old(mac).key_spec(),
                out@ == old(out)@ + spec_ser_fields(fs.subrange(0, i as int)),
                mac.data_spec() == old(mac).data_spec() + spec_fields_payload(
                    fs.subrange(0, i as int),
                ),
            decreases n - i,
        {
            let f = &self.fields[i];
            let r = f.serialize(out, mac);
            proof {
                lemma_ser_fields_snoc(fs, i as int);
            }
            match r {
                Ok(_) => {},
                Err(_) => {
                    proof {
                        assert(false);
                    }
                },
            }
            i = i + 1;
        }
        proof {
            assert(fs.subrange(0, n as int) =~= fs);
        }
        Ok(())
    }
}

} // verus!

verus! {

/// Parse one field at `*pos`: `Ok(None)` is a clean end of stream (with
/// nothing consumed), `Ok(Some(..))` a field — unrecognized tags come back
/// as `Unknown` raw data — and `Err` a truncated field or a payload shorter
/// than its catalogued width. The raw payload of every parsed field goes
/// into the authenticator.
pub fn parse_field(mac: &mut HMAC, c: Catalog, bytes: &[u8], pos: &mut usize) -> (r: Result<
    Option<Field>,
    PwsError,
>)
    requires
        *old(pos) <= bytes@.len(),
        bytes@.len() < usize::MAX - 16,
    ensures
        final(mac).key_spec() == old(mac).key_spec(),
        *final(pos) <= bytes@.len(),
        match r {
            Ok(None) => {
                &&& sp_field(bytes@, *old(pos) as int) is None
                &&& *final(pos) == *old(pos)
                &&& *final(mac) == *old(mac)
            },
            Ok(Some(f)) => ({
                let st = sp_field(bytes@, *old(pos) as int);
                &&& st matches Some(Some((tag, p, next))) && *final(pos) == next
                    && final(mac).data_spec() == old(mac).data_spec() + p
                    && (match spec_lookup(c, tag) {
                    Some(def) => f.def == def && spec_decode(def.tp, p) == Some(f.data@),
                    None => f.def == Def { kind: Kind::Unknown, tp: Type::Raw } && f.data@
                        == DataView::Raw(p),
                })
            }),
            Err(e) => ({
                let st = sp_field(bytes@, *old(pos) as int);
                &&& e == PwsError::CorruptRecord
                &&& (st matches Some(None) || (st matches Some(Some((tag, p, next)))
                    && spec_lookup(c, tag) matches Some(def) && spec_decode(def.tp, p) is None))
            }),
        },
{
    let n = bytes.len();
    let start = *pos;
    if n - start < 4 {
        return Ok(None);
    }
    let b0 = bytes[start];
    let b1 = bytes[start + 1];
    let b2 = bytes[start + 2];
    let b3 = bytes[start + 3];
    let len32: u32 = (b0 as u32) | ((b1 as u32) << 8) | ((b2 as u32) << 16) | ((b3 as u32) << 24);
    proof {
        let sub = bytes@.subrange(start as int, start as int + 4);
        assert(sub[0] == b0 && sub[1] == b1 && sub[2] == b2 && sub[3] == b3);
        assert(len32 == spec_le32_val(sub));
    }
    if n - start < 5 {
        return Err(PwsError::CorruptRecord);
    }
    let tag = bytes[start + 4];
    let l = len32 as usize;
    if l > n - start - 5 {
        return Err(PwsError::CorruptRecord);
    }
    let payload = vstd::slice::slice_subrange(bytes, start + 5, start + 5 + l);
    mac.update(payload);
    let field = match lookup(c, tag) {
        None => Field {
            def: Def { kind: Kind::Unknown, tp: Type::Raw },
            data: Data::Raw(slice_to_vec(payload)),
        },
        Some(def) => {
            match decode_data(def, payload) {
                Ok(d) => Field { def, data: d },
                Err(e) => {
                    return Err(e);
                },
            }
        },
    };
    let pad = pad_len(l);
    let next0 = start + 5 + l + pad;
    if next0 > n {
        *pos = n;
    } else {
        *pos = next0;
    }
    Ok(Some(field))
}

/// Parse one record at `*pos`: fields accumulate (later kinds win,
/// unrecognized tags are dropped) until an `End` sentinel. `Ok(None)` —
/// with nothing consumed — when the stream is exhausted before any field;
/// `Err` when a field is truncated or the stream ends mid-record. On
/// success the authenticator has absorbed every payload byte of the
/// record, the sentinel's included.
pub fn parse(mac: &mut HMAC, c: Catalog, bytes: &[u8], pos: &mut usize) -> (r: Result<
    Option<Item>,
    PwsError,
>)
    requires
        *old(pos) <= bytes@.len(),
        bytes@.len() < usize::MAX - 16,
    ensures
        final(mac).key_spec() == old(mac).key_spec(),
        *final(pos) <= bytes@.len(),
        match r {
            Ok(None) => {
                &&& sp_item(bytes@, *old(pos) as int, c) is None
                &&& *final(pos) == *old(pos)
                &&& *final(mac) == *old(mac)
            },
            Ok(Some(item)) => ({
                let st = sp_item(bytes@, *old(pos) as int, c);
                &&& st matches Some(Some((m, next, mp))) && item@ == m && *final(pos) == next
                    && final(mac).data_spec() == old(mac).data_spec() + mp
                &&& item.wf_in(c)
            }),
            Err(e) => {
                &&& sp_item(bytes@, *old(pos) as int, c) matches Some(None)
                &&& e == PwsError::CorruptRecord
            },
        },
{
    let mut item = new();
    let mut got = false;
    let ghost pos0 = *pos;
    let ghost mac0 = *mac;
    let ghost mut delta = Seq::<u8>::empty();
    proof {
        assert(mac0.data_spec() + delta =~= mac0.data_spec());
    }
    loop
        invariant
            *pos <= bytes@.len(),
            bytes@.len() < usize::MAX - 16,
            pos0 == *old(pos),
            mac0 == *old(mac),
            pos0 <= bytes@.len(),
            mac.key_spec() == mac0.key_spec(),
            mac.data_spec() == mac0.data_spec() + delta,
            item.wf_in(c),
            sp_item(bytes@, pos0 as int, c) == sp_item_rec(
                bytes@,
                *pos as int,
                c,
                item@,
                got,
                delta,
            ),
            !got ==> *pos == pos0 && *mac == mac0 && item@ == Map::<Kind, DataView>::empty()
                && delta == Seq::<u8>::empty(),
        decreases bytes@.len() - *pos,
    {
        let ghost prev = *pos;
        let ghost mac_prev = *mac;
        let ghost item_prev = item@;
        let ghost delta_prev = delta;
        let ghost got_prev = got;
        let step = parse_field(mac, c, bytes, pos);
        proof {
            lemma_sp_field_range(bytes@, prev as int);
            lemma_catalog_kinds(c);
            lemma_catalog_bijection(c);
        }
        match step {
            Ok(None) => {
                if got {
                    return Err(PwsError::CorruptRecord);
                }
                return Ok(None);
            },
            Err(_) => {
                return Err(PwsError::CorruptRecord);
            },
            Ok(Some(f)) => {
                proof {
                    delta = mac.data_spec().subrange(
                        mac0.data_spec().len() as int,
                        mac.data_spec().len() as int,
                    );
                    assert(mac.data_spec() =~= mac0.data_spec() + delta);
                }
                if matches!(f.def.kind, Kind::End) {
                    proof {
                        assert(delta =~= delta_prev + (sp_field(
                            bytes@,
                            prev as int,
                        )->Some_0->Some_0.1));
                    }
                    return Ok(Some(item));
                }
                if matches!(f.def.kind, Kind::Unknown) {
                    got = true;
                    proof {
                        assert(delta =~= delta_prev + (sp_field(
                            bytes@,
                            prev as int,
                        )->Some_0->Some_0.1));
                    }
                } else {
                    item.put(f);
                    got = true;
                    proof {
                        let st = sp_field(bytes@, prev as int);
                        let p = st->Some_0->Some_0.1;
                        let tag = st->Some_0->Some_0.0;
                        assert(delta =~= delta_prev + p);
                        assert(spec_lookup(c, tag) == Some(f.def));
                        lemma_decode_matches(f.def.tp, p);
                        assert(spec_wf_field(f, c));
                    }
                }
            },
        }
    }
}

} // verus!

verus! {

/// In a well-formed record, the value stored under a kind has the shape
/// the catalog gives that kind.
pub proof fn lemma_wf_value_shape(item: Item, k: Kind, c: Catalog)
    requires
        item.wf_in(c),
        item@.contains_key(k),
    ensures
        spec_tag_for(k) matches Some(t) && spec_lookup(c, t) matches Some(def)
            && spec_data_matches(item@[k], def.tp),
{
    lemma_item_map_contains(item.fields_spec(), k);
    let i = choose|i: int| 0 <= i < item.fields_spec().len() && item.fields_spec()[i].def.kind == k;
    lemma_item_map_index(item.fields_spec(), i);
}

} // verus!

verus! {

/// Padding always completes the 5-byte header and payload to whole blocks:
/// for every encoded field, header, payload and padding sum to a multiple
/// of 16.
pub proof fn lemma_field_padding(len: nat)
    ensures
        spec_pad_len(len) < 16,
        (5 + len + spec_pad_len(len)) % 16 == 0,
{
}

/// The length of one encoded field: header, payload, padding — at least
/// one block, and whole blocks only.
pub proof fn lemma_ser_field_len(f: Field)
    requires
        spec_tag_for(f.def.kind) is Some,
    ensures
        spec_ser_field(f).len() == 5 + spec_encode(f.data).len() + spec_pad_len(
            spec_encode(f.data).len(),
        ),
        spec_ser_field(f).len() % 16 == 0,
        16 <= spec_ser_field(f).len(),
{
    lemma_field_padding(spec_encode(f.data).len());
}

/// A sequence of encoded fields fills whole blocks.
pub proof fn lemma_ser_fields_len(fs: Seq<Field>)
    requires
        spec_ser_ok(fs),
    ensures
        spec_ser_fields(fs).len() % 16 == 0,
    decreases fs.len(),
{
    if fs.len() > 0 {
        assert(spec_tag_for(fs[0].def.kind) is Some);
        lemma_ser_field_len(fs[0]);
        assert(forall|j: int| 0 <= j < fs.drop_first().len() ==> #[trigger] fs.drop_first()[j]
            == fs[j + 1]);
        lemma_ser_fields_len(fs.drop_first());
    }
}

/// Fields folded onto a mapping, first to last; later kinds win.
pub open spec fn map_fold(acc: Map<Kind, DataView>, fs: Seq<Field>) -> Map<Kind, DataView>
    decreases fs.len(),
{
    if fs.len() == 0 {
        acc
    } else {
        map_fold(acc.insert(fs[0].def.kind, fs[0].data@), fs.drop_first())
    }
}

/// Folding one more field inserts its kind.
pub proof fn lemma_map_fold_push(acc: Map<Kind, DataView>, fs: Seq<Field>, f: Field)
    ensures
        map_fold(acc, fs.push(f)) == map_fold(acc, fs).insert(f.def.kind, f.data@),
    decreases fs.len(),
{
    if fs.len() == 0 {
        assert(fs.push(f)[0] == f);
        assert(fs.push(f).drop_first() =~= Seq::<Field>::empty());
        assert(map_fold(acc, fs.push(f)) == map_fold(
            acc.insert(f.def.kind, f.data@),
            fs.push(f).drop_first(),
        ));
        assert(map_fold(acc, fs) == acc);
    } else {
        assert(fs.push(f)[0] == fs[0]);
        assert(fs.push(f).drop_first() =~= fs.drop_first().push(f));
        assert(map_fold(acc, fs.push(f)) == map_fold(
            acc.insert(fs[0].def.kind, fs[0].data@),
            fs.drop_first().push(f),
        ));
        lemma_map_fold_push(acc.insert(fs[0].def.kind, fs[0].data@), fs.drop_first(), f);
    }
}

/// Folding from the empty mapping is the mapping a field sequence denotes.
pub proof fn lemma_map_fold_item_map(fs: Seq<Field>)
    ensures
        map_fold(Map::empty(), fs) == spec_item_map(fs),
    decreases fs.len(),
{
    if fs.len() > 0 {
        lemma_map_fold_item_map(fs.drop_last());
        lemma_map_fold_push(Map::empty(), fs.drop_last(), fs.last());
        assert(fs.drop_last().push(fs.last()) =~= fs);
    }
}

/// Parsing one field out of its own encoding yields the same tag and
/// payload and lands exactly after the padding.
pub proof fn lemma_sp_field_of_ser(b: Seq<u8>, i: int, tag: u8, p: Seq<u8>)
    requires
        0 <= i,
        spec_len_ok(p.len()),
        i + spec_field_bytes(tag, p).len() <= b.len(),
        b.subrange(i, i + spec_field_bytes(tag, p).len() as int) == spec_field_bytes(tag, p),
    ensures
        sp_field(b, i) == Some(Some((tag, p, i + spec_field_bytes(tag, p).len()))),
{
    lemma_field_padding(p.len());
    lemma_le32_roundtrip(p.len() as u32);
    let fb = spec_field_bytes(tag, p);
    let flen = fb.len() as int;
    let l = p.len() as int;
    assert(flen == 5 + l + spec_pad_len(p.len()));
    assert forall|j: int| 0 <= j < flen implies b[i + j] == fb[j] by {
        assert(b.subrange(i, i + flen)[j] == b[i + j]);
    }
    assert(b.subrange(i, i + 4) =~= spec_le32(p.len() as u32));
    assert(spec_le32_val(b.subrange(i, i + 4)) == p.len() as u32);
    assert(b[i + 4] == fb[4]);
    assert(fb[4] == tag);
    assert forall|j: int| 0 <= j < l implies b.subrange(i + 5, i + 5 + l)[j] == p[j] by {
        assert(b.subrange(i + 5, i + 5 + l)[j] == b[i + 5 + j]);
        assert(b[i + 5 + j] == fb[5 + j]);
        assert(fb[5 + j] == ((spec_le32(p.len() as u32) + seq![tag]) + p)[5 + j]);
    }
    assert(b.subrange(i + 5, i + 5 + l) =~= p);
    assert(i + 5 + l + spec_pad_len(p.len()) == i + flen);
}

/// Parsing a record out of its own encoding — the encoded fields, then one
/// `End` sentinel — folds exactly those fields onto the accumulator, lands
/// after the sentinel, and feeds exactly the payload bytes to the
/// authenticator.
pub proof fn lemma_sp_item_of_ser(
    b: Seq<u8>,
    i: int,
    fs: Seq<Field>,
    c: Catalog,
    acc: Map<Kind, DataView>,
    got: bool,
    mac: Seq<u8>,
)
    requires
        0 <= i,
        spec_ser_ok(fs),
        forall|j: int| 0 <= j < fs.len() ==> spec_wf_field(#[trigger] fs[j], c),
        i + spec_ser_fields(fs).len() + 16 <= b.len(),
        b.subrange(i, i + spec_ser_fields(fs).len() + 16) == spec_ser_fields(fs)
            + spec_end_bytes(),
    ensures
        sp_item_rec(b, i, c, acc, got, mac) == Some(
            Some(
                (
                    map_fold(acc, fs),
                    i + spec_ser_fields(fs).len() + 16,
                    mac + spec_fields_payload(fs),
                ),
            ),
        ),
    decreases fs.len(),
{
    lemma_end_bytes_len();
    if fs.len() == 0 {
        assert(b.subrange(i, i + 16) =~= spec_end_bytes());
        assert(spec_end_bytes().len() == 16);
        lemma_sp_field_of_ser(b, i, 0xffu8, Seq::<u8>::empty());
        assert(spec_lookup(c, 0xffu8) == Some(Def { kind: Kind::End, tp: Type::Raw }));
        assert(mac + spec_fields_payload(fs) =~= mac + Seq::<u8>::empty());
        assert(mac + Seq::<u8>::empty() =~= mac);
    } else {
        let f = fs[0];
        assert(spec_wf_field(f, c));
        let tag = spec_tag_for(f.def.kind).unwrap();
        let enc = spec_encode(f.data);
        let fb = spec_ser_field(f);
        let flen = fb.len() as int;
        let tail = fs.drop_first();
        let tlen = spec_ser_fields(tail).len() as int;
        assert(spec_ser_fields(fs) == fb + spec_ser_fields(tail));
        let whole = b.subrange(i, i + spec_ser_fields(fs).len() + 16);
        assert forall|j: int| 0 <= j < flen + tlen + 16 implies b[i + j] == whole[j] by {
            assert(whole[j] == b[i + j]);
        }
        assert(b.subrange(i, i + flen) =~= fb);
        lemma_sp_field_of_ser(b, i, tag, enc);
        assert(spec_lookup(c, tag) == Some(f.def));
        assert(f.def.kind != Kind::End);
        lemma_decode_encode(f.data, f.def.tp);
        assert(forall|j: int| 0 <= j < tail.len() ==> #[trigger] tail[j] == fs[j + 1]);
        assert forall|j: int| 0 <= j < tlen + 16 implies b.subrange(
            i + flen,
            i + flen + tlen + 16,
        )[j] == (spec_ser_fields(tail) + spec_end_bytes())[j] by {
            assert(b.subrange(i + flen, i + flen + tlen + 16)[j] == b[i + flen + j]);
            assert(b[i + flen + j] == whole[flen + j]);
            assert(whole[flen + j] == (spec_ser_fields(fs) + spec_end_bytes())[flen + j]);
            assert((spec_ser_fields(fs) + spec_end_bytes())[flen + j] == (spec_ser_fields(tail)
                + spec_end_bytes())[j]);
        }
        assert(b.subrange(i + flen, i + flen + tlen + 16) =~= spec_ser_fields(tail)
            + spec_end_bytes());
        lemma_sp_item_of_ser(
            b,
            i + flen,
            tail,
            c,
            acc.insert(f.def.kind, f.data@),
            true,
            mac + enc,
        );
        assert(spec_fields_payload(fs) == enc + spec_fields_payload(tail));
        assert((mac + enc) + spec_fields_payload(tail) =~= mac + spec_fields_payload(fs));
    }
}

} // verus!

verus! {

/// A record holding one field with an unrecognized tag followed by a valid
/// `End` sentinel parses successfully, into a record that simply lacks the
/// unrecognized field; its payload still reaches the authenticator.
pub proof fn lemma_unknown_tag_resilience(b: Seq<u8>, i: int, tag: u8, p: Seq<u8>, c: Catalog)
    requires
        0 <= i,
        spec_lookup(c, tag) is None,
        spec_len_ok(p.len()),
        i + spec_field_bytes(tag, p).len() + 16 <= b.len(),
        b.subrange(i, i + spec_field_bytes(tag, p).len() + 16) == spec_field_bytes(tag, p)
            + spec_end_bytes(),
    ensures
        sp_item(b, i, c) == Some(
            Some((Map::<Kind, DataView>::empty(), i + spec_field_bytes(tag, p).len() + 16, p)),
        ),
{
    lemma_end_bytes_len();
    let fb = spec_field_bytes(tag, p);
    let flen = fb.len() as int;
    let whole = b.subrange(i, i + flen + 16);
    assert forall|j: int| 0 <= j < flen + 16 implies b[i + j] == whole[j] by {
        assert(whole[j] == b[i + j]);
    }
    assert forall|j: int| 0 <= j < flen implies b.subrange(i, i + flen)[j] == fb[j] by {
        assert(b.subrange(i, i + flen)[j] == b[i + j]);
        assert(whole[j] == (fb + spec_end_bytes())[j]);
    }
    assert(b.subrange(i, i + flen) =~= fb);
    lemma_sp_field_of_ser(b, i, tag, p);
    assert forall|j: int| 0 <= j < 16 implies b.subrange(i + flen, i + flen + 16)[j]
        == spec_end_bytes()[j] by {
        assert(b.subrange(i + flen, i + flen + 16)[j] == b[i + flen + j]);
        assert(whole[flen + j] == (fb + spec_end_bytes())[flen + j]);
    }
    assert(b.subrange(i + flen, i + flen + 16) =~= spec_end_bytes());
    assert(b.subrange(i + flen, i + flen + spec_ser_fields(Seq::<Field>::empty()).len() + 16)
        =~= spec_ser_fields(Seq::<Field>::empty()) + spec_end_bytes());
    lemma_sp_item_of_ser(
        b,
        i + flen,
        Seq::<Field>::empty(),
        c,
        Map::empty(),
        true,
        Seq::<u8>::empty() + p,
    );
    assert((Seq::<u8>::empty() + p) + spec_fields_payload(Seq::<Field>::empty()) =~= p);
}

} // verus!
