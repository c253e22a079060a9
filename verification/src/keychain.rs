//! The container: the on-disk envelope around the record stream.
//!
//! A database file is a fixed header (magic tag, salt, iteration count,
//! stretched-password hash, two wrapped working keys, an IV), the CBC
//! encrypted record stream, a fixed end marker, and an authentication tag
//! over every unpadded field payload.
use vstd::prelude::*;
use vstd::slice::{slice_subrange, slice_to_vec};
use vstd::string::{StringExecFns, StringSliceAdditionalSpecFns};

use crate::crypto;
use crate::crypto::HMAC;
use crate::item;
use crate::item::{Catalog, Data, DataView, Item, Kind};
use crate::PwsError;

verus! {

/// The 4-byte format tag that opens every database file.
pub open spec fn spec_magic() -> Seq<u8> {
    seq![0x50u8, 0x57u8, 0x53u8, 0x33u8]
}

/// The 16-byte literal that separates the encrypted stream from the
/// authentication tag: the ASCII end marker, twice.
pub open spec fn spec_marker() -> Seq<u8> {
    seq![
        0x50u8, 0x57u8, 0x53u8, 0x33u8, 0x2du8, 0x45u8, 0x4fu8, 0x46u8,
        0x50u8, 0x57u8, 0x53u8, 0x33u8, 0x2du8, 0x45u8, 0x4fu8, 0x46u8,
    ]
}

/// The format tag, executable form.
pub fn magic_bytes() -> (r: Vec<u8>)
    ensures
        r@ == spec_magic(),
{
    let mut v: Vec<u8> = Vec::new();
    v.push(0x50);
    v.push(0x57);
    v.push(0x53);
    v.push(0x33);
    proof {
        assert(v@ =~= spec_magic());
    }
    v
}

/// The end marker, executable form.
pub fn marker_bytes() -> (r: Vec<u8>)
    ensures
        r@ == spec_marker(),
{
    let mut v = magic_bytes();
    v.push(0x2d);
    v.push(0x45);
    v.push(0x4f);
    v.push(0x46);
    let mut w = slice_to_vec(v.as_slice());
    v.append(&mut w);
    proof {
        assert(v@ =~= spec_marker());
    }
    v
}

/// The first position at or after `from` where the end marker starts.
pub open spec fn spec_find_marker(s: Seq<u8>, from: int) -> Option<int>
    recommends
        0 <= from,
    decreases s.len() - from,
{
    if from + 16 > s.len() {
        None
    } else if s.subrange(from, from + 16) == spec_marker() {
        Some(from)
    } else {
        spec_find_marker(s, from + 1)
    }
}

/// Linear scan for the first occurrence of the end marker.
pub fn find_marker(s: &[u8]) -> (r: Option<usize>)
    requires
        s@.len() < usize::MAX - 16,
    ensures
        match r {
            Some(p) => spec_find_marker(s@, 0) == Some(p as int) && p + 16 <= s@.len(),
            None => spec_find_marker(s@, 0) is None,
        },
{
    let marker = marker_bytes();
    let n = s.len();
    let mut i: usize = 0;
    while i + 16 <= n
        invariant
            n == s@.len(),
            n < usize::MAX - 16,
            i <= n,
            marker@ == spec_marker(),
            spec_find_marker(s@, 0) == spec_find_marker(s@, i as int),
        decreases n - i,
    {
        let window = slice_subrange(s, i, i + 16);
        if crypto::bytes_eq(window, marker.as_slice()) {
            return Some(i);
        }
        i = i + 1;
    }
    None
}

/// What a successfully opened file denotes: the salt and iteration count it
/// was written with, the header record, and the entry records in file
/// order.
pub struct DbModel {
    pub salt: Seq<u8>,
    pub iter: u32,
    pub header: Map<Kind, DataView>,
    pub entries: Seq<Map<Kind, DataView>>,
}

/// The whole unlock pipeline over the file bytes and password bytes:
/// magic tag, salt, iteration count, stretched-password hash check, key
/// unwrap, marker scan, bulk decryption, record parsing, and the final
/// authentication check. `None` exactly when any step refuses.
pub open spec fn spec_open(b: Seq<u8>, pw: Seq<u8>) -> Option<DbModel> {
    if b.len() < 152 {
        None
    } else if b.subrange(0, 4) != spec_magic() {
        None
    } else {
        let salt = b.subrange(4, 36);
        let iter = item::spec_le32_val(b.subrange(36, 40));
        let stored = b.subrange(40, 72);
        let stretched = crypto::spec_stretch(pw, salt, iter as nat);
        if crypto::spec_sha256(stretched) != stored {
            None
        } else {
            let k = crypto::spec_ecb_decrypt(stretched, b.subrange(72, 104));
            let l = crypto::spec_ecb_decrypt(stretched, b.subrange(104, 136));
            let iv = b.subrange(136, 152);
            let rest = b.subrange(152, b.len() as int);
            match spec_find_marker(rest, 0) {
                None => None,
                Some(p) => {
                    if p + 48 > rest.len() {
                        None
                    } else if p % 16 != 0 {
                        None
                    } else {
                        let body = crypto::spec_cbc_decrypt(k, iv, rest.subrange(0, p));
                        let tag = rest.subrange(p + 16, p + 48);
                        match item::sp_item(body, 0, Catalog::Header) {
                            None => None,
                            Some(None) => None,
                            Some(Some((hdr, hn, mp1))) => {
                                match item::sp_items(body, hn, Catalog::Data) {
                                    None => None,
                                    Some((entries, mp2)) => {
                                        if crypto::spec_hmac_sha256(l, mp1 + mp2) == tag {
                                            Some(DbModel { salt, iter, header: hdr, entries })
                                        } else {
                                            None
                                        }
                                    },
                                }
                            },
                        }
                    }
                },
            }
        }
    }
}

/// An in-memory database: where it lives, how its password is stretched,
/// and its records.
#[derive(Debug)]
pub struct V3 {
    path: String,
    salt: Vec<u8>,
    iter: u32,
    header: Option<Item>,
    items: Vec<Item>,
}

impl V3 {
    /// The file path this database reads from and writes to.
    pub closed spec fn path_spec(self) -> Seq<char> {
        self.path@
    }

    /// The salt of the last open or save.
    pub closed spec fn salt_spec(self) -> Seq<u8> {
        self.salt@
    }

    /// The stretching iteration count.
    pub closed spec fn iter_spec(self) -> u32 {
        self.iter
    }

    /// The header record, if one was read.
    pub closed spec fn header_view(self) -> Option<Map<Kind, DataView>> {
        match self.header {
            Some(h) => Some(h@),
            None => None,
        }
    }

    /// The entry records, in order.
    pub closed spec fn items_seq(self) -> Seq<Item> {
        self.items@
    }

    /// The entry records as mappings, in order.
    pub open spec fn entries(self) -> Seq<Map<Kind, DataView>> {
        Seq::new(self.items_seq().len(), |i: int| self.items_seq()[i]@)
    }

    /// The header record, if present, fits the header catalog.
    pub closed spec fn header_ok(self) -> bool {
        match self.header {
            Some(h) => h.wf_in(Catalog::Header),
            None => true,
        }
    }

    /// Every record well-formed, the salt 32 bytes.
    pub open spec fn wf(self) -> bool {
        &&& self.salt_spec().len() == 32
        &&& forall|i: int| 0 <= i < self.items_seq().len() ==> (#[trigger] self.items_seq()[i]).wf()
        &&& self.header_ok()
    }

    /// A fresh, empty database for a path, with the default iteration count
    /// and an all-zero salt; the salt is replaced on every save.
    pub fn new(path: &str) -> (r: V3)
        ensures
            r.wf(),
            r.path_spec() == path@,
            r.iter_spec() == 100000u32,
            r.salt_spec() == Seq::new(32, |i: int| 0u8),
            r.entries() == Seq::<Map<Kind, DataView>>::empty(),
            r.header_view() is None,
    {
        let mut salt: Vec<u8> = Vec::new();
        let mut i: usize = 0;
        while i < 32
            invariant
                i <= 32,
                salt@.len() == i,
                forall|j: int| 0 <= j < i ==> salt@[j] == 0u8,
            decreases 32 - i,
        {
            salt.push(0);
            i = i + 1;
        }
        let r = V3 {
            path: path.to_owned(),
            salt,
            iter: 100000,
            header: None,
            items: Vec::new(),
        };
        proof {
            assert(r.salt_spec() =~= Seq::new(32, |i: int| 0u8));
            assert(r.entries() =~= Seq::<Map<Kind, DataView>>::empty());
        }
        r
    }

    /// How many entries the database holds.
    pub fn len(&self) -> (r: usize)
        ensures
            r == self.entries().len(),
    {
        self.items.len()
    }

    /// The entries, in container order.
    pub fn iter(&self) -> (r: &Vec<Item>)
        ensures
            r@ == self.items_seq(),
    {
        &self.items
    }

    /// Append an entry; no disk effect until the next save.
    pub fn insert(&mut self, entry: Item)
        requires
            old(self).wf(),
            entry.wf(),
        ensures
            final(self).wf(),
            final(self).entries() == old(self).entries().push(entry@),
            final(self).path_spec() == old(self).path_spec(),
            final(self).iter_spec() == old(self).iter_spec(),
            final(self).salt_spec() == old(self).salt_spec(),
            final(self).header_view() == old(self).header_view(),
    {
        self.items.push(entry);
        proof {
            assert(self.entries() =~= old(self).entries().push(entry@));
        }
    }
}

} // verus!

verus! {

/// The mappings of a sequence of records, in order.
pub open spec fn views_of(items: Seq<Item>) -> Seq<Map<Kind, DataView>> {
    Seq::new(items.len(), |i: int| items[i]@)
}

/// The display name of an entry: its group and title joined with a dot
/// when a group is present, else the title alone.
pub open spec fn spec_name_of(m: Map<Kind, DataView>) -> Seq<char> {
    let t = if m.contains_key(Kind::Title) {
        match m[Kind::Title] {
            DataView::Text(s) => s,
            _ => Seq::empty(),
        }
    } else {
        Seq::<char>::empty()
    };
    if m.contains_key(Kind::Group) {
        (match m[Kind::Group] {
            DataView::Text(s) => s,
            _ => Seq::empty(),
        }) + seq!['.'] + t
    } else {
        t
    }
}

impl V3 {
    /// Unlock a database from its file bytes. `Some` exactly when the whole
    /// pipeline of `spec_open` accepts: the format tag matches, the
    /// stretched password hashes to the stored value, the end marker is
    /// found over an aligned body, every record parses, and the
    /// authentication tag over every payload byte matches.
    #[verifier::loop_isolation(false)]
    pub fn open(path: &str, data: &[u8], password: &str) -> (r: Option<V3>)
        requires
            data@.len() < usize::MAX - 16,
        ensures
            match r {
                Some(kc) => ({
                    &&& spec_open(data@, password.spec_bytes()) matches Some(m) && kc.salt_spec()
                        == m.salt && kc.iter_spec() == m.iter && kc.header_view() == Some(m.header)
                        && kc.entries() == m.entries
                    &&& kc.wf()
                    &&& kc.path_spec() == path@
                }),
                None => spec_open(data@, password.spec_bytes()) is None,
            },
    {
        let n = data.len();
        if n < 152 {
            return None;
        }
        let magic = magic_bytes();
        if !crypto::bytes_eq(slice_subrange(data, 0, 4), magic.as_slice()) {
            return None;
        }
        let salt = slice_to_vec(slice_subrange(data, 4, 36));
        let b0 = data[36];
        let b1 = data[37];
        let b2 = data[38];
        let b3 = data[39];
        let iter: u32 = (b0 as u32) | ((b1 as u32) << 8) | ((b2 as u32) << 16) | ((b3 as u32)
            << 24);
        proof {
            let sub = data@.subrange(36, 40);
            assert(sub[0] == b0 && sub[1] == b1 && sub[2] == b2 && sub[3] == b3);
            assert(iter == item::spec_le32_val(sub));
        }
        let stored = slice_subrange(data, 40, 72);
        let stretched = crypto::stretch(password, salt.as_slice(), iter);
        let hash = crypto::sha256(stretched.as_slice());
        if !crypto::bytes_eq(hash.as_slice(), stored) {
            return None;
        }
        let b12 = slice_subrange(data, 72, 104);
        let b34 = slice_subrange(data, 104, 136);
        let iv = slice_to_vec(slice_subrange(data, 136, 152));
        let k = match crypto::decrypt_block_ecb(b12, stretched.as_slice()) {
            Ok(v) => v,
            Err(_) => {
                proof {
                    assert(false);
                }
                return None;
            },
        };
        let l = match crypto::decrypt_block_ecb(b34, stretched.as_slice()) {
            Ok(v) => v,
            Err(_) => {
                proof {
                    assert(false);
                }
                return None;
            },
        };
        let rest = slice_subrange(data, 152, n);
        let p = match find_marker(rest) {
            Some(p) => p,
            None => {
                return None;
            },
        };
        if rest.len() - p < 48 {
            return None;
        }
        let mut body = slice_to_vec(slice_subrange(rest, 0, p));
        match crypto::decrypt_inplace(&mut body, k.as_slice(), iv.as_slice()) {
            Ok(_) => {},
            Err(_) => {
                return None;
            },
        }
        let mut mac = HMAC::new(l.as_slice());
        let mut pos: usize = 0;
        let header = match item::parse(&mut mac, Catalog::Header, body.as_slice(), &mut pos) {
            Ok(Some(h)) => h,
            Ok(None) => {
                return None;
            },
            Err(_) => {
                return None;
            },
        };
        let ghost hn = pos as int;
        let ghost mp1 = mac.data_spec();
        proof {
            assert(Seq::<u8>::empty() + mp1 =~= mp1);
            assert(mac.data_spec() =~= mp1);
        }
        let mut items: Vec<Item> = Vec::new();
        let ghost mut acc_mac = Seq::<u8>::empty();
        proof {
            assert(mp1 + acc_mac =~= mp1);
            assert(views_of(items@) =~= Seq::<Map<Kind, DataView>>::empty());
        }
        loop
            invariant
                pos <= body@.len(),
                body@.len() < usize::MAX - 16,
                hn <= body@.len(),
                mac.key_spec() == l@,
                mac.data_spec() == mp1 + acc_mac,
                forall|i: int| 0 <= i < items@.len() ==> (#[trigger] items@[i]).wf(),
                item::sp_items(body@, hn, Catalog::Data) == item::sp_items_rec(
                    body@,
                    pos as int,
                    Catalog::Data,
                    views_of(items@),
                    acc_mac,
                ),
            decreases body@.len() - pos,
        {
            let ghost prev = pos as int;
            let ghost items_prev = items@;
            let ghost acc_prev = acc_mac;
            match item::parse(&mut mac, Catalog::Data, body.as_slice(), &mut pos) {
                Ok(Some(it)) => {
                    proof {
                        item::lemma_sp_item_rec_range(
                            body@,
                            prev,
                            Catalog::Data,
                            Map::empty(),
                            false,
                            Seq::empty(),
                        );
                    }
                    items.push(it);
                    proof {
                        let st = item::sp_item(body@, prev, Catalog::Data);
                        let mp = st->Some_0->Some_0.2;
                        acc_mac = acc_prev + mp;
                        assert(views_of(items@) =~= views_of(items_prev).push(it@));
                        assert(mac.data_spec() =~= mp1 + acc_mac);
                    }
                },
                Ok(None) => {
                    let tag = slice_subrange(rest, p + 16, p + 48);
                    let mut mac2 = mac;
                    match mac2.verify(tag) {
                        Ok(_) => {
                            let kc = V3 {
                                path: path.to_owned(),
                                salt,
                                iter,
                                header: Some(header),
                                items,
                            };
                            proof {
                                assert(kc.entries() =~= views_of(kc.items_seq()));
                            }
                            return Some(kc);
                        },
                        Err(_) => {
                            return None;
                        },
                    }
                },
                Err(_) => {
                    return None;
                },
            }
        }
    }
}

} // verus!

verus! {

impl V3 {
    /// The display name of every entry, in container order:
    /// `<group>.<title>` when a group is present, else the title alone.
    #[verifier::loop_isolation(false)]
    pub fn each(&self) -> (r: Vec<String>)
        requires
            self.wf(),
        ensures
            r@.len() == self.entries().len(),
            forall|i: int| 0 <= i < r@.len() ==> (#[trigger] r@[i])@ == spec_name_of(
                self.entries()[i],
            ),
    {
        let mut names: Vec<String> = Vec::new();
        let n = self.items.len();
        let mut idx: usize = 0;
        while idx < n
            invariant
                idx <= n,
                names@.len() == idx,
                forall|i: int| 0 <= i < idx ==> (#[trigger] names@[i])@ == spec_name_of(
                    self.entries()[i],
                ),
            decreases n - idx,
        {
            let it = &self.items[idx];
            proof {
                assert(*it == self.items_seq()[idx as int]);
                assert(it.wf());
            }
            let ghost m = it@;
            let mut name = String::new();
            proof {
                reveal_strlit(".");
            }
            match it.get(Kind::Group) {
                Some(d) => {
                    proof {
                        item::lemma_wf_value_shape(*it, Kind::Group, Catalog::Data);
                    }
                    match d {
                        Data::Text(g) => {
                            name.append(g.as_str());
                            name.append(".");
                        },
                        _ => {
                            proof {
                                assert(false);
                            }
                        },
                    }
                },
                None => {},
            }
            match it.get(Kind::Title) {
                Some(d) => {
                    proof {
                        item::lemma_wf_value_shape(*it, Kind::Title, Catalog::Data);
                    }
                    match d {
                        Data::Text(t) => {
                            name.append(t.as_str());
                        },
                        _ => {
                            proof {
                                assert(false);
                            }
                        },
                    }
                },
                None => {},
            }
            proof {
                assert(name@ =~= spec_name_of(m));
            }
            names.push(name);
            idx = idx + 1;
        }
        names
    }
}

} // verus!

verus! {

/// The record stream of a sequence of entries: each entry's fields, then
/// one `End` sentinel, in order.
pub open spec fn spec_ser_items(items: Seq<Item>) -> Seq<u8>
    decreases items.len(),
{
    if items.len() == 0 {
        Seq::empty()
    } else {
        item::spec_ser_fields(items[0].fields_spec()) + item::spec_end_bytes()
            + spec_ser_items(items.drop_first())
    }
}

/// The payload bytes of a sequence of entries — what the authenticator
/// sees for them.
pub open spec fn spec_items_payload(items: Seq<Item>) -> Seq<u8>
    decreases items.len(),
{
    if items.len() == 0 {
        Seq::empty()
    } else {
        item::spec_fields_payload(items[0].fields_spec()) + spec_items_payload(items.drop_first())
    }
}

/// Every entry well-formed and writable.
pub open spec fn spec_items_ok(items: Seq<Item>) -> bool {
    forall|i: int| #![trigger items[i]]
        0 <= i < items.len() ==> items[i].wf() && item::spec_ser_ok(items[i].fields_spec())
}

/// Writing one more entry appends its bytes and payload.
pub proof fn lemma_ser_items_snoc(items: Seq<Item>, i: int)
    requires
        0 <= i < items.len(),
    ensures
        spec_ser_items(items.subrange(0, i + 1)) == spec_ser_items(items.subrange(0, i))
            + item::spec_ser_fields(items[i].fields_spec()) + item::spec_end_bytes(),
        spec_items_payload(items.subrange(0, i + 1)) == spec_items_payload(items.subrange(0, i))
            + item::spec_fields_payload(items[i].fields_spec()),
    decreases i,
{
    if i == 0 {
        assert(items.subrange(0, 1).drop_first() =~= Seq::<Item>::empty());
        assert(items.subrange(0, 0) =~= Seq::<Item>::empty());
        assert(items.subrange(0, 1)[0] == items[0]);
        assert(spec_ser_items(items.subrange(0, 1)) =~= spec_ser_items(items.subrange(0, 0))
            + item::spec_ser_fields(items[0].fields_spec()) + item::spec_end_bytes());
        assert(spec_items_payload(items.subrange(0, 1)) =~= spec_items_payload(
            items.subrange(0, 0),
        ) + item::spec_fields_payload(items[0].fields_spec()));
    } else {
        lemma_ser_items_snoc(items.drop_first(), i - 1);
        assert(items.subrange(0, i + 1).drop_first() =~= items.drop_first().subrange(0, i));
        assert(items.subrange(0, i).drop_first() =~= items.drop_first().subrange(0, i - 1));
        assert(items.subrange(0, i + 1)[0] == items[0]);
        assert(items.subrange(0, i)[0] == items[0]);
        assert(items.drop_first()[i - 1] == items[i]);
        assert(spec_ser_items(items.subrange(0, i + 1)) =~= spec_ser_items(items.subrange(0, i))
            + item::spec_ser_fields(items[i].fields_spec()) + item::spec_end_bytes());
        assert(spec_items_payload(items.subrange(0, i + 1)) =~= spec_items_payload(
            items.subrange(0, i),
        ) + item::spec_fields_payload(items[i].fields_spec()));
    }
}

/// An entry stream fills whole blocks.
pub proof fn lemma_ser_items_len(items: Seq<Item>)
    requires
        spec_items_ok(items),
    ensures
        spec_ser_items(items).len() % 16 == 0,
    decreases items.len(),
{
    item::lemma_end_bytes_len();
    if items.len() > 0 {
        assert(item::spec_ser_ok(items[0].fields_spec()));
        item::lemma_ser_fields_len(items[0].fields_spec());
        assert(forall|j: int| 0 <= j < items.drop_first().len() ==> #[trigger] items.drop_first()[j]
            == items[j + 1]);
        lemma_ser_items_len(items.drop_first());
    }
}

/// Parsing an entry stream out of its own encoding — when the stream ends
/// exactly with the buffer — yields exactly those entries' mappings and
/// payload bytes.
pub proof fn lemma_sp_items_of_ser(
    b: Seq<u8>,
    i: int,
    items: Seq<Item>,
    acc: Seq<Map<Kind, DataView>>,
    mac: Seq<u8>,
)
    requires
        0 <= i <= b.len(),
        spec_items_ok(items),
        i + spec_ser_items(items).len() == b.len(),
        b.subrange(i, b.len() as int) == spec_ser_items(items),
    ensures
        item::sp_items_rec(b, i, Catalog::Data, acc, mac) == Some(
            (acc + views_of(items), mac + spec_items_payload(items)),
        ),
    decreases items.len(),
{
    item::lemma_end_bytes_len();
    if items.len() == 0 {
        assert(i == b.len());
        assert(item::sp_field(b, i) is None);
        assert(acc + views_of(items) =~= acc);
        assert(mac + spec_items_payload(items) =~= mac);
    } else {
        let first = items[0];
        assert(first.wf() && item::spec_ser_ok(first.fields_spec()));
        let fs = first.fields_spec();
        let flen = item::spec_ser_fields(fs).len() as int;
        let tail = items.drop_first();
        let whole = b.subrange(i, b.len() as int);
        assert forall|j: int| 0 <= j < b.len() - i implies b[i + j] == whole[j] by {
            assert(whole[j] == b[i + j]);
        }
        assert forall|j: int| 0 <= j < flen + 16 implies b.subrange(i, i + flen + 16)[j] == (
        item::spec_ser_fields(fs) + item::spec_end_bytes())[j] by {
            assert(b.subrange(i, i + flen + 16)[j] == b[i + j]);
            assert(whole[j] == (item::spec_ser_fields(fs) + item::spec_end_bytes()
                + spec_ser_items(tail))[j]);
        }
        assert(b.subrange(i, i + flen + 16) =~= item::spec_ser_fields(fs)
            + item::spec_end_bytes());
        item::lemma_sp_item_of_ser(b, i, fs, Catalog::Data, Map::empty(), false, Seq::empty());
        item::lemma_map_fold_item_map(fs);
        assert(item::sp_item(b, i, Catalog::Data) == Some(
            Some((first@, i + flen + 16, Seq::<u8>::empty() + item::spec_fields_payload(fs))),
        ));
        assert(forall|j: int| 0 <= j < tail.len() ==> #[trigger] tail[j] == items[j + 1]);
        assert forall|j: int| 0 <= j < b.len() - (i + flen + 16) implies b.subrange(
            i + flen + 16,
            b.len() as int,
        )[j] == spec_ser_items(tail)[j] by {
            assert(b.subrange(i + flen + 16, b.len() as int)[j] == b[i + flen + 16 + j]);
            assert(whole[flen + 16 + j] == (item::spec_ser_fields(fs) + item::spec_end_bytes()
                + spec_ser_items(tail))[flen + 16 + j]);
        }
        assert(b.subrange(i + flen + 16, b.len() as int) =~= spec_ser_items(tail));
        lemma_sp_items_of_ser(
            b,
            i + flen + 16,
            tail,
            acc.push(first@),
            mac + (Seq::<u8>::empty() + item::spec_fields_payload(fs)),
        );
        assert(acc.push(first@) + views_of(tail) =~= acc + views_of(items));
        assert((mac + (Seq::<u8>::empty() + item::spec_fields_payload(fs))) + spec_items_payload(
            tail,
        ) =~= mac + spec_items_payload(items));
    }
}

} // verus!

verus! {

/// Whether every entry can be rendered to bytes: each field has a tag and
/// a payload that fits the 4-byte length header.
pub open spec fn spec_entries_writable(items: Seq<Item>) -> bool {
    forall|i: int| 0 <= i < items.len() ==> item::spec_ser_ok((#[trigger] items[i]).fields_spec())
}

/// The full on-disk envelope for the given password bytes, randomness and
/// entries: magic tag, salt, iteration count, stretched-password hash, the
/// two wrapped working keys, IV, encrypted record stream, end marker, and
/// the authentication tag over every unpadded field payload. The header
/// record is a bare sentinel.
pub open spec fn spec_envelope(
    pw: Seq<u8>,
    salt: Seq<u8>,
    k: Seq<u8>,
    l: Seq<u8>,
    iv: Seq<u8>,
    iter: u32,
    items: Seq<Item>,
) -> Seq<u8> {
    let stretched = crypto::spec_stretch(pw, salt, iter as nat);
    let body = item::spec_end_bytes() + spec_ser_items(items);
    spec_magic() + salt + item::spec_le32(iter) + crypto::spec_sha256(stretched)
        + crypto::spec_ecb_encrypt(stretched, k) + crypto::spec_ecb_encrypt(stretched, l) + iv
        + crypto::spec_cbc_encrypt(k, iv, body) + spec_marker() + crypto::spec_hmac_sha256(
        l,
        spec_items_payload(items),
    )
}

impl V3 {
    /// Serialize the whole database under the given salt, working keys and
    /// IV. Succeeds exactly when every entry can be rendered; the result is
    /// then the full envelope of `spec_envelope`, with the fixed positions
    /// of every component stated outright.
    ///
    /// Round trip: whenever the first end-marker occurrence in the written
    /// stream is the one written here (a ciphertext can in principle forge
    /// an earlier one), opening the result with the same password succeeds
    /// and yields these entries, in this order.
    #[verifier::loop_isolation(false)]
    #[verifier::rlimit(100)]
    pub fn assemble(&self, password: &str, salt: &[u8], k: &[u8], l: &[u8], iv: &[u8]) -> (r:
        Option<Vec<u8>>)
        requires
            self.wf(),
            salt@.len() == 32,
            k@.len() == 32,
            l@.len() == 32,
            iv@.len() == 16,
        ensures
            match r {
                Some(bytes) => ({
                    let pw = password.spec_bytes();
                    let rest = bytes@.subrange(152, bytes@.len() as int);
                    &&& spec_entries_writable(self.items_seq())
                    &&& bytes@ == spec_envelope(
                        pw,
                        salt@,
                        k@,
                        l@,
                        iv@,
                        self.iter_spec(),
                        self.items_seq(),
                    )
                    &&& bytes@.len() >= 200
                    &&& (bytes@.len() - 200) % 16 == 0
                    &&& bytes@.subrange(0, 4) == spec_magic()
                    &&& bytes@.subrange(4, 36) == salt@
                    &&& bytes@.subrange(36, 40) == item::spec_le32(self.iter_spec())
                    &&& bytes@.subrange(40, 72) == crypto::spec_sha256(
                        crypto::spec_stretch(pw, salt@, self.iter_spec() as nat),
                    )
                    &&& bytes@.subrange(bytes@.len() - 48, bytes@.len() - 32) == spec_marker()
                    &&& bytes@.subrange(bytes@.len() - 32, bytes@.len() as int)
                        == crypto::spec_hmac_sha256(l@, spec_items_payload(self.items_seq()))
                    &&& (spec_find_marker(rest, 0) == Some(rest.len() - 48) ==> (spec_open(
                        bytes@,
                        pw,
                    ) matches Some(m) && m.entries == self.entries() && m.iter == self.iter_spec()
                        && m.salt == salt@ && m.header == Map::<Kind, DataView>::empty()))
                }),
                None => !spec_entries_writable(self.items_seq()),
            },
    {
        let stretched = crypto::stretch(password, salt, self.iter);
        let hash = crypto::sha256(stretched.as_slice());
        let b12 = match crypto::encrypt_block_ecb(k, stretched.as_slice()) {
            Ok(v) => v,
            Err(_) => {
                proof {
                    assert(false);
                }
                return None;
            },
        };
        let b34 = match crypto::encrypt_block_ecb(l, stretched.as_slice()) {
            Ok(v) => v,
            Err(_) => {
                proof {
                    assert(false);
                }
                return None;
            },
        };
        let mut mac = HMAC::new(l);
        let mut body: Vec<u8> = Vec::new();
        item::serialize_end(&mut body, &mut mac);
        proof {
            assert(body@ =~= item::spec_end_bytes() + spec_ser_items(
                self.items_seq().subrange(0, 0),
            ));
            assert(mac.data_spec() =~= spec_items_payload(self.items_seq().subrange(0, 0)));
        }
        let n = self.items.len();
        let mut idx: usize = 0;
        while idx < n
            invariant
                idx <= n,
                n == self.items_seq().len(),
                mac.key_spec() == l@,
                body@ == item::spec_end_bytes() + spec_ser_items(
                    self.items_seq().subrange(0, idx as int),
                ),
                mac.data_spec() == spec_items_payload(self.items_seq().subrange(0, idx as int)),
                spec_items_ok(self.items_seq().subrange(0, idx as int)),
            decreases n - idx,
        {
            let entry = &self.items[idx];
            proof {
                assert(*entry == self.items_seq()[idx as int]);
            }
            match entry.serialize(&mut body, &mut mac) {
                Ok(_) => {},
                Err(_) => {
                    proof {
                        assert(!item::spec_ser_ok(self.items_seq()[idx as int].fields_spec()));
                    }
                    return None;
                },
            }
            item::serialize_end(&mut body, &mut mac);
            proof {
                lemma_ser_items_snoc(self.items_seq(), idx as int);
                assert(body@ =~= item::spec_end_bytes() + spec_ser_items(
                    self.items_seq().subrange(0, idx as int + 1),
                ));
                assert(mac.data_spec() =~= spec_items_payload(
                    self.items_seq().subrange(0, idx as int + 1),
                ));
                assert forall|j: int|
                    0 <= j < idx as int + 1 implies (#[trigger] self.items_seq().subrange(
                    0,
                    idx as int + 1,
                )[j]).wf() && item::spec_ser_ok(
                    self.items_seq().subrange(0, idx as int + 1)[j].fields_spec(),
                ) by {
                    if j < idx as int {
                        assert(self.items_seq().subrange(0, idx as int + 1)[j] == self.items_seq(
                        ).subrange(0, idx as int)[j]);
                    } else {
                        assert(self.items_seq().subrange(0, idx as int + 1)[j] == self.items_seq(
                        )[idx as int]);
                    }
                }
            }
            idx = idx + 1;
        }
        let ghost items_all = self.items_seq();
        proof {
            assert(items_all.subrange(0, n as int) =~= items_all);
            lemma_ser_items_len(items_all);
            item::lemma_end_bytes_len();
        }
        let tag = mac.get_mac();
        let mut cipher = body;
        let ghost plain = cipher@;
        match crypto::encrypt_inplace(&mut cipher, k, iv) {
            Ok(_) => {},
            Err(_) => {
                proof {
                    assert(false);
                }
                return None;
            },
        }
        let magic = magic_bytes();
        let marker = marker_bytes();
        let mut out: Vec<u8> = Vec::new();
        item::push_bytes(&mut out, magic.as_slice());
        item::push_bytes(&mut out, salt);
        item::push_le32(&mut out, self.iter);
        item::push_bytes(&mut out, hash.as_slice());
        item::push_bytes(&mut out, b12.as_slice());
        item::push_bytes(&mut out, b34.as_slice());
        item::push_bytes(&mut out, iv);
        item::push_bytes(&mut out, cipher.as_slice());
        item::push_bytes(&mut out, marker.as_slice());
        item::push_bytes(&mut out, tag.as_slice());
        proof {
            let bv = out@;
            let nn = plain.len() as int;
            assert(bv.len() == 200 + nn);
            assert(plain =~= item::spec_end_bytes() + spec_ser_items(items_all));
            assert(nn % 16 == 0);
            assert(bv =~= spec_envelope(
                password.spec_bytes(),
                salt@,
                k@,
                l@,
                iv@,
                self.iter,
                items_all,
            ));
            assert(bv.subrange(0, 4) =~= spec_magic());
            assert(bv.subrange(4, 36) =~= salt@);
            assert(bv.subrange(36, 40) =~= item::spec_le32(self.iter));
            assert(bv.subrange(40, 72) =~= hash@);
            assert(bv.subrange(72, 104) =~= b12@);
            assert(bv.subrange(104, 136) =~= b34@);
            assert(bv.subrange(136, 152) =~= iv@);
            let rest = bv.subrange(152, bv.len() as int);
            assert(rest.subrange(0, nn) =~= cipher@);
            assert(rest.subrange(nn, nn + 16) =~= spec_marker());
            assert(rest.subrange(nn + 16, nn + 48) =~= tag@);
            assert(bv.subrange(bv.len() - 48, bv.len() - 32) =~= spec_marker());
            assert(bv.subrange(bv.len() - 32, bv.len() as int) =~= tag@);
            item::lemma_le32_roundtrip(self.iter);
            if spec_find_marker(rest, 0) == Some(rest.len() - 48) {
                assert(rest.len() - 48 == nn);
                assert(crypto::spec_cbc_decrypt(k@, iv@, rest.subrange(0, nn)) == plain);
                assert(plain.subrange(0, 16) =~= item::spec_end_bytes());
                item::lemma_sp_item_of_ser(
                    plain,
                    0,
                    Seq::<item::Field>::empty(),
                    Catalog::Header,
                    Map::empty(),
                    false,
                    Seq::empty(),
                );
                assert(item::sp_item(plain, 0, Catalog::Header) == Some(
                    Some(
                        (
                            Map::<Kind, DataView>::empty(),
                            16int,
                            Seq::<u8>::empty() + Seq::<u8>::empty(),
                        ),
                    ),
                ));
                assert(plain.subrange(16, plain.len() as int) =~= spec_ser_items(items_all));
                lemma_sp_items_of_ser(plain, 16, items_all, Seq::empty(), Seq::empty());
                assert(Seq::<Map<Kind, DataView>>::empty() + views_of(items_all) =~= views_of(
                    items_all,
                ));
                assert((Seq::<u8>::empty() + Seq::<u8>::empty()) + (Seq::<u8>::empty()
                    + spec_items_payload(items_all)) =~= spec_items_payload(items_all));
                assert(tag@ == crypto::spec_hmac_sha256(l@, spec_items_payload(items_all)));
                assert(self.entries() =~= views_of(items_all));
            }
        }
        Some(out)
    }

    /// Serialize the whole database under fresh randomness: new salt, new
    /// working keys, new IV; the caller writes the returned bytes to disk
    /// whole. `None` — with the database untouched — when the random
    /// source is unavailable or an entry cannot be rendered; otherwise the
    /// new salt is kept, and the result is the envelope `assemble` states,
    /// for some drawn keys and IV.
    pub fn save(&mut self, password: &str) -> (r: Option<Vec<u8>>)
        requires
            old(self).wf(),
        ensures
            final(self).wf(),
            final(self).path_spec() == old(self).path_spec(),
            final(self).iter_spec() == old(self).iter_spec(),
            final(self).entries() == old(self).entries(),
            final(self).header_view() == old(self).header_view(),
            match r {
                Some(bytes) => ({
                    let pw = password.spec_bytes();
                    let rest = bytes@.subrange(152, bytes@.len() as int);
                    &&& spec_entries_writable(old(self).items_seq())
                    &&& (exists|k: Seq<u8>, l: Seq<u8>, iv: Seq<u8>|
                        k.len() == 32 && l.len() == 32 && iv.len() == 16 && bytes@
                            == #[trigger] spec_envelope(
                            pw,
                            final(self).salt_spec(),
                            k,
                            l,
                            iv,
                            old(self).iter_spec(),
                            old(self).items_seq(),
                        ))
                    &&& bytes@.len() >= 200
                    &&& (bytes@.len() - 200) % 16 == 0
                    &&& bytes@.subrange(0, 4) == spec_magic()
                    &&& final(self).salt_spec() == bytes@.subrange(4, 36)
                    &&& bytes@.subrange(36, 40) == item::spec_le32(old(self).iter_spec())
                    &&& bytes@.subrange(40, 72) == crypto::spec_sha256(
                        crypto::spec_stretch(
                            pw,
                            final(self).salt_spec(),
                            old(self).iter_spec() as nat,
                        ),
                    )
                    &&& bytes@.subrange(bytes@.len() - 48, bytes@.len() - 32) == spec_marker()
                    &&& (spec_find_marker(rest, 0) == Some(rest.len() - 48) ==> (spec_open(
                        bytes@,
                        pw,
                    ) matches Some(m) && m.entries == old(self).entries() && m.iter == old(
                        self,
                    ).iter_spec() && m.salt == final(self).salt_spec() && m.header == Map::<
                        Kind,
                        DataView,
                    >::empty()))
                }),
                None => *final(self) == *old(self),
            },
    {
        let salt_new = match crypto::random_bytes(32) {
            Some(v) => v,
            None => {
                return None;
            },
        };
        let k = match crypto::random_bytes(32) {
            Some(v) => v,
            None => {
                return None;
            },
        };
        let l = match crypto::random_bytes(32) {
            Some(v) => v,
            None => {
                return None;
            },
        };
        let iv = match crypto::random_bytes(16) {
            Some(v) => v,
            None => {
                return None;
            },
        };
        let out = self.assemble(
            password,
            salt_new.as_slice(),
            k.as_slice(),
            l.as_slice(),
            iv.as_slice(),
        );
        match out {
            Some(bytes) => {
                self.salt = salt_new;
                proof {
                    assert(bytes@ == spec_envelope(
                        password.spec_bytes(),
                        self.salt_spec(),
                        k@,
                        l@,
                        iv@,
                        self.iter_spec(),
                        self.items_seq(),
                    ));
                }
                Some(bytes)
            },
            None => None,
        }
    }
}

} // verus!

verus! {

impl V3 {
    /// The indices, in increasing order, of exactly those entries whose
    /// display name the pattern matches.
    #[verifier::loop_isolation(false)]
    pub fn each_re(&self, re: &crate::matcher::Matcher) -> (r: Vec<usize>)
        requires
            self.wf(),
        ensures
            forall|a: int, b: int| 0 <= a < b < r@.len() ==> r@[a] < r@[b],
            forall|j: int| #![trigger r@[j]]
                0 <= j < r@.len() ==> r@[j] < self.entries().len() && crate::matcher::spec_regex_match(
                    re.pattern(),
                    spec_name_of(self.entries()[r@[j] as int]),
                ),
            forall|i: int|
                0 <= i < self.entries().len() && crate::matcher::spec_regex_match(
                    re.pattern(),
                    spec_name_of(#[trigger] self.entries()[i]),
                ) ==> r@.contains(i as usize),
    {
        let names = self.each();
        let mut hits: Vec<usize> = Vec::new();
        let n = names.len();
        let mut i: usize = 0;
        while i < n
            invariant
                i <= n,
                n == self.entries().len(),
                forall|a: int, b: int| 0 <= a < b < hits@.len() ==> hits@[a] < hits@[b],
                forall|j: int| #![trigger hits@[j]]
                    0 <= j < hits@.len() ==> hits@[j] < i && crate::matcher::spec_regex_match(
                        re.pattern(),
                        spec_name_of(self.entries()[hits@[j] as int]),
                    ),
                forall|k: int|
                    0 <= k < i && crate::matcher::spec_regex_match(
                        re.pattern(),
                        spec_name_of(#[trigger] self.entries()[k]),
                    ) ==> hits@.contains(k as usize),
            decreases n - i,
        {
            let name = &names[i];
            if re.is_match(name.as_str()) {
                let ghost hits_prev = hits@;
                hits.push(i);
                proof {
                    assert(hits@[hits@.len() - 1] == i);
                    assert forall|k: int|
                        0 <= k < i + 1 && crate::matcher::spec_regex_match(
                            re.pattern(),
                            spec_name_of(#[trigger] self.entries()[k]),
                        ) implies hits@.contains(k as usize) by {
                        if k < i {
                            assert(hits_prev.contains(k as usize));
                            let idx = choose|idx: int|
                                0 <= idx < hits_prev.len() && hits_prev[idx] == k as usize;
                            assert(hits@[idx] == k as usize);
                        } else {
                            assert(hits@[hits@.len() - 1] == k as usize);
                        }
                    }
                }
            } else {
                proof {
                    assert forall|k: int|
                        0 <= k < i + 1 && crate::matcher::spec_regex_match(
                            re.pattern(),
                            spec_name_of(#[trigger] self.entries()[k]),
                        ) implies hits@.contains(k as usize) by {
                        if k < i {
                        } else {
                            assert(!crate::matcher::spec_regex_match(
                                re.pattern(),
                                spec_name_of(self.entries()[k]),
                            ));
                        }
                    }
                }
            }
            i = i + 1;
        }
        hits
    }
}

} // verus!

verus! {

/// A found marker position is never before the scan's start.
pub proof fn lemma_find_marker_ge(s: Seq<u8>, from: int)
    requires
        0 <= from,
    ensures
        spec_find_marker(s, from) matches Some(q) ==> q >= from,
    decreases s.len() - from,
{
    if from + 16 <= s.len() && s.subrange(from, from + 16) != spec_marker() {
        lemma_find_marker_ge(s, from + 1);
    }
}

/// Two streams that agree up to the end of a found marker find it at the
/// same place.
pub proof fn lemma_find_marker_agree(s1: Seq<u8>, s2: Seq<u8>, upto: int, from: int)
    requires
        s1.len() == s2.len(),
        0 <= from <= upto,
        upto + 16 <= s1.len(),
        forall|j: int| 0 <= j < upto + 16 ==> s1[j] == s2[j],
        spec_find_marker(s1, from) == Some(upto),
    ensures
        spec_find_marker(s2, from) == Some(upto),
    decreases upto - from,
{
    assert forall|j: int|
        0 <= j < 16 implies #[trigger] s1.subrange(from, from + 16)[j] == s2.subrange(
        from,
        from + 16,
    )[j] by {
        assert(s1.subrange(from, from + 16)[j] == s1[from + j]);
        assert(s2.subrange(from, from + 16)[j] == s2[from + j]);
    }
    assert(s1.subrange(from, from + 16) =~= s2.subrange(from, from + 16));
    if from < upto {
        if s1.subrange(from, from + 16) == spec_marker() {
            assert(spec_find_marker(s1, from) == Some(from));
            assert(false);
        }
        lemma_find_marker_agree(s1, s2, upto, from + 1);
    } else {
        if s1.subrange(from, from + 16) != spec_marker() {
            lemma_find_marker_ge(s1, from + 1);
            assert(false);
        }
    }
}

/// Tampering with the stored tag: a file that opens, whose tag occupies
/// its last 32 bytes, no longer opens after any change to those bytes —
/// the recomputed code over the unchanged stream still equals the old tag.
pub proof fn lemma_tag_tamper(b: Seq<u8>, pw: Seq<u8>, b2: Seq<u8>)
    requires
        spec_open(b, pw) is Some,
        spec_find_marker(b.subrange(152, b.len() as int), 0) == Some(b.len() - 200),
        b2.len() == b.len(),
        b2.subrange(0, b.len() - 32) == b.subrange(0, b.len() - 32),
        b2.subrange(b.len() - 32, b.len() as int) != b.subrange(b.len() - 32, b.len() as int),
    ensures
        spec_open(b2, pw) is None,
{
    let len = b.len() as int;
    let rest = b.subrange(152, len);
    let rest2 = b2.subrange(152, len);
    let p = len - 200;
    lemma_find_marker_ge(rest, 0);
    assert(p >= 0);
    assert forall|j: int| 0 <= j < len - 32 implies b2[j] == b[j] by {
        assert(b2.subrange(0, len - 32)[j] == b2[j]);
        assert(b.subrange(0, len - 32)[j] == b[j]);
    }
    assert(b2.subrange(0, 4) =~= b.subrange(0, 4));
    assert(b2.subrange(4, 36) =~= b.subrange(4, 36));
    assert(b2.subrange(36, 40) =~= b.subrange(36, 40));
    assert(b2.subrange(40, 72) =~= b.subrange(40, 72));
    assert(b2.subrange(72, 104) =~= b.subrange(72, 104));
    assert(b2.subrange(104, 136) =~= b.subrange(104, 136));
    assert(b2.subrange(136, 152) =~= b.subrange(136, 152));
    assert forall|j: int| 0 <= j < p + 16 implies rest[j] == rest2[j] by {
        assert(rest[j] == b[152 + j]);
        assert(rest2[j] == b2[152 + j]);
    }
    lemma_find_marker_agree(rest, rest2, p, 0);
    assert(rest2.subrange(0, p) =~= rest.subrange(0, p));
    let tag1 = rest.subrange(p + 16, p + 48);
    let tag2 = rest2.subrange(p + 16, p + 48);
    assert(tag1 =~= b.subrange(len - 32, len));
    assert(tag2 =~= b2.subrange(len - 32, len));
    assert(tag1 != tag2);
}

} // verus!
