//! Content-addressed storage of image assets: each asset is stored under the
//! first sixteen hexadecimal digits of the SHA-256 digest of its bytes, with
//! identical content stored once and a numbered suffix on a digest collision.
use sha2::{Digest, Sha256};
use vstd::prelude::*;
use vstd::string::StringExecFns;
use crate::seqs::{first_index, lemma_index_from, lemma_distinct_within};
use crate::text::{
    decimal, decimal_string, hex_of, hex_pair, hex_char, is_hex_digit_char, lemma_decimal_injective,
    lemma_hex_of_len, lemma_hex_of_digits, str_eq,
};

verus! {

broadcast use vstd::seq_lib::group_seq_properties;

/// An asset's bytes, either on disk (not loaded yet) or in memory.
#[derive(Debug, Clone)]
pub enum AssetEntry {
    /// On disk at the given path, not yet loaded into memory.
    OnDisk(String),
    /// Loaded into memory.
    Loaded(Vec<u8>),
}

/// Model of an asset entry.
pub enum EntryView {
    OnDisk(Seq<char>),
    Loaded(Seq<u8>),
}

impl View for AssetEntry {
    type V = EntryView;

    open spec fn view(&self) -> EntryView {
        match self {
            AssetEntry::OnDisk(p) => EntryView::OnDisk(p@),
            AssetEntry::Loaded(b) => EntryView::Loaded(b@),
        }
    }
}

/// Why an asset could not be returned.
#[derive(Debug, Clone)]
pub enum AssetError {
    NotFound(String),
    Io(String),
}

impl AssetError {
    /// The message of the error.
    pub open spec fn spec_message(&self) -> Seq<char> {
        match self {
            AssetError::NotFound(k) => "asset not found: "@ + k@,
            AssetError::Io(m) => "io error: "@ + m@,
        }
    }

    /// The message of the error.
    pub fn message(&self) -> (r: String)
        ensures
            r@ == self.spec_message(),
    {
        match self {
            AssetError::NotFound(k) => crate::text::concat2("asset not found: ", k.as_str()),
            AssetError::Io(m) => crate::text::concat2("io error: ", m.as_str()),
        }
    }
}

/// Assets keyed by content hash (possibly with a collision suffix).
#[derive(Debug)]
pub struct AssetStore {
    entries: Vec<(String, AssetEntry)>,
}

/// The SHA-256 digest of a byte sequence.
pub uninterp spec fn sha256_digest(data: Seq<u8>) -> Seq<u8>;

/// SHA-256 of `data`.
///
/// Wraps `sha2::Sha256::digest` (from the `Digest` trait); the contract says
/// that the result is the SHA-256 digest of the input and, as the algorithm
/// defines, 32 bytes long. The digest function itself is left unnamed.
#[verifier::external_body]
fn sha256(data: &[u8]) -> (r: Vec<u8>)
    ensures
        r@ == sha256_digest(data@),
        r@.len() == 32,
{
    Sha256::digest(data).to_vec()
}

/// The storage key of content: the hexadecimal rendering of the first eight
/// bytes of its SHA-256 digest.
pub open spec fn content_hash(data: Seq<u8>) -> Seq<char> {
    hex_of(sha256_digest(data).take(8))
}

/// The key used for the `suffix`-th colliding content of a hash.
pub open spec fn suffixed_key(hash: Seq<char>, suffix: nat) -> Seq<char> {
    hash + seq!['_'] + decimal(suffix)
}

/// The relative path under which an asset key is referenced by documents.
pub open spec fn asset_path(key: Seq<char>, ext: Seq<char>) -> Seq<char> {
    seq!['a', 's', 's', 'e', 't', 's', '/'] + key + seq!['.'] + ext
}

/// `suffix` is the first suffix from 2 on whose key is free in `m`.
pub open spec fn first_free_suffix(m: Map<Seq<char>, EntryView>, hash: Seq<char>, suffix: nat) -> bool {
    &&& suffix >= 2
    &&& !m.contains_key(suffixed_key(hash, suffix))
    &&& forall|j: nat| 2 <= j < suffix ==> m.contains_key(#[trigger] suffixed_key(hash, j))
}

/// Adding image bytes `data` with extension `ext` to the entries `m` returns
/// path `r` and leaves entries `m2`: content not stored yet is stored under
/// its hash; content whose hash is stored on disk or with the same bytes is
/// not stored again; content whose hash holds other bytes is stored under
/// the first free suffixed key.
pub open spec fn image_added(
    m: Map<Seq<char>, EntryView>,
    data: Seq<u8>,
    ext: Seq<char>,
    r: Seq<char>,
    m2: Map<Seq<char>, EntryView>,
) -> bool {
    let h = content_hash(data);
    &&& !m.contains_key(h) ==> r == asset_path(h, ext) && m2 == m.insert(h, EntryView::Loaded(data))
    &&& m.contains_key(h) && (m[h] is OnDisk || m[h] == EntryView::Loaded(data)) ==> r
        == asset_path(h, ext) && m2 == m
    &&& m.contains_key(h) && m[h] is Loaded && m[h] != EntryView::Loaded(data) ==> exists|n: nat|
        #![trigger suffixed_key(h, n)]
        first_free_suffix(m, h, n) && r == asset_path(suffixed_key(h, n), ext) && m2 == m.insert(
            suffixed_key(h, n),
            EntryView::Loaded(data),
        )
}

/// Law: adding the same bytes a second time gives back the same path and
/// leaves the entries as they were, unless the stored entry under the
/// bytes' hash holds other bytes (a hash collision).
pub proof fn law_add_image_deduplicates(
    m: Map<Seq<char>, EntryView>,
    data: Seq<u8>,
    ext: Seq<char>,
    r1: Seq<char>,
    m1: Map<Seq<char>, EntryView>,
    r2: Seq<char>,
    m2: Map<Seq<char>, EntryView>,
)
    requires
        image_added(m, data, ext, r1, m1),
        image_added(m1, data, ext, r2, m2),
        !(m.contains_key(content_hash(data)) && m[content_hash(data)] is Loaded
            && m[content_hash(data)] != EntryView::Loaded(data)),
    ensures
        r2 == r1,
        m2 == m1,
{
}

/// Renders bytes as lower-case hexadecimal.
fn hex_encode(bytes: &[u8]) -> (s: String)
    ensures
        s@ == hex_of(bytes@),
{
    let mut s = String::new();
    let mut i: usize = 0;
    while i < bytes.len()
        invariant
            0 <= i <= bytes@.len(),
            s@ == hex_of(bytes@.take(i as int)),
        decreases bytes@.len() - i,
    {
        let b = bytes[i];
        s.append(hex_digit_str(b / 16));
        s.append(hex_digit_str(b % 16));
        proof {
            assert(bytes@.take(i + 1).drop_last() =~= bytes@.take(i as int));
            assert(bytes@.take(i + 1).last() == b);
            assert(hex_pair(b) =~= seq![hex_char((b / 16) as nat)] + seq![
                hex_char((b % 16) as nat),
            ]);
        }
        i += 1;
    }
    assert(bytes@.take(bytes@.len() as int) =~= bytes@);
    s
}

/// One lower-case hexadecimal digit as a string.
fn hex_digit_str(d: u8) -> (s: &'static str)
    requires
        d < 16,
    ensures
        s@ == seq![hex_char(d as nat)],
{
    if d < 10 {
        crate::text::digit_str(d as u64)
    } else if d == 10 {
        proof {
            reveal_strlit("a");
        }
        "a"
    } else if d == 11 {
        proof {
            reveal_strlit("b");
        }
        "b"
    } else if d == 12 {
        proof {
            reveal_strlit("c");
        }
        "c"
    } else if d == 13 {
        proof {
            reveal_strlit("d");
        }
        "d"
    } else if d == 14 {
        proof {
            reveal_strlit("e");
        }
        "e"
    } else {
        proof {
            reveal_strlit("f");
        }
        "f"
    }
}

/// Builds `assets/{key}.{ext}`.
fn make_asset_path(key: &str, ext: &str) -> (s: String)
    ensures
        s@ == asset_path(key@, ext@),
{
    let mut s = String::from_str("assets/");
    proof {
        reveal_strlit("assets/");
        reveal_strlit(".");
    }
    s.append(key);
    s.append(".");
    s.append(ext);
    s
}

impl AssetStore {
    /// Keys of the stored entries, in storage order.
    pub closed spec fn keys(&self) -> Seq<Seq<char>> {
        self.entries@.map_values(|e: (String, AssetEntry)| e.0@)
    }

    /// No key is stored twice.
    #[verifier::type_invariant]
    closed spec fn keys_distinct(&self) -> bool {
        self.keys().no_duplicates()
    }

    /// Number of stored entries.
    pub closed spec fn spec_len(&self) -> nat {
        self.entries@.len()
    }

    /// The stored entries as a map from key to entry.
    pub closed spec fn spec_entries(&self) -> Map<Seq<char>, EntryView> {
        Map::new(
            |k: Seq<char>| self.keys().contains(k),
            |k: Seq<char>| self.entries@[first_index(self.keys(), k)->0].1@,
        )
    }

    /// The entry stored under `k` is at position `i`.
    proof fn lemma_entry_at(&self, i: int)
        requires
            self.keys().no_duplicates(),
            0 <= i < self.entries@.len(),
        ensures
            self.spec_entries().contains_key(self.entries@[i].0@),
            self.spec_entries()[self.entries@[i].0@] == self.entries@[i].1@,
            first_index(self.keys(), self.entries@[i].0@) == Some(i),
    {
        let k = self.entries@[i].0@;
        assert(self.keys()[i] == k);
        lemma_index_from(self.keys(), k, 0);
        let j = first_index(self.keys(), k)->0;
        assert(self.keys()[j] == k);
    }

    /// The map has exactly as many keys as there are entries.
    pub proof fn lemma_len(&self)
        requires
            self.keys().no_duplicates(),
        ensures
            self.spec_entries().dom().finite(),
            self.spec_entries().dom().len() == self.spec_len(),
    {
        assert(self.spec_entries().dom() =~= self.keys().to_set());
        self.keys().unique_seq_to_set();
    }

    /// An empty store.
    pub fn new() -> (r: Self)
        ensures
            r.spec_entries() == Map::<Seq<char>, EntryView>::empty(),
            r.spec_len() == 0,
    {
        let r = AssetStore { entries: Vec::new() };
        assert(r.spec_entries() =~= Map::<Seq<char>, EntryView>::empty());
        r
    }

    /// Position of `key`, if stored.
    fn position(&self, key: &str) -> (r: Option<usize>)
        ensures
            match r {
                Some(i) => i < self.entries@.len() && self.entries@[i as int].0@ == key@
                    && first_index(self.keys(), key@) == Some(i as int),
                None => !self.keys().contains(key@),
            },
    {
        let mut i: usize = 0;
        while i < self.entries.len()
            invariant
                0 <= i <= self.entries@.len(),
                forall|j: int| 0 <= j < i ==> self.entries@[j].0@ != key@,
            decreases self.entries@.len() - i,
        {
            if str_eq(self.entries[i].0.as_str(), key) {
                proof {
                    lemma_index_from(self.keys(), key@, 0);
                    let k = first_index(self.keys(), key@);
                    assert(self.keys()[i as int] == key@);
                    if k != Some(i as int) {
                        let kk = k->0;
                        assert(self.keys()[kk] == key@);
                    }
                }
                return Some(i);
            }
            i += 1;
        }
        proof {
            if self.keys().contains(key@) {
                let j = choose|j: int| 0 <= j < self.keys().len() && self.keys()[j] == key@;
                assert(self.entries@[j].0@ == key@);
            }
        }
        None
    }

    /// Store `entry` under `key`, replacing what was stored there.
    fn insert(&mut self, key: String, entry: AssetEntry)
        ensures
            final(self).spec_entries() == old(self).spec_entries().insert(key@, entry@),
    {
        proof {
            use_type_invariant(&*self);
        }
        let ghost old_entries = self.spec_entries();
        let ghost old_keys = self.keys();
        let ghost k = key@;
        let ghost e = entry@;
        let pos = self.position(key.as_str());
        let mut entries: Vec<(String, AssetEntry)> = Vec::new();
        std::mem::swap(&mut entries, &mut self.entries);
        let ghost old_seq = entries@;
        match pos {
            Some(i) => {
                entries.set(i, (key, entry));
            },
            None => {
                entries.push((key, entry));
            },
        }
        let ghost new_keys = entries@.map_values(|e: (String, AssetEntry)| e.0@);
        proof {
            match pos {
                Some(i) => {
                    assert(new_keys =~= old_keys.update(i as int, k));
                    assert(old_keys[i as int] == k);
                    assert(new_keys =~= old_keys);
                },
                None => {
                    assert(new_keys =~= old_keys.push(k));
                    assert forall|a: int, b: int|
                        0 <= a < new_keys.len() && 0 <= b < new_keys.len() && a != b implies new_keys[a]
                        != new_keys[b] by {
                        if a == old_keys.len() as int {
                            assert(old_keys[b] == new_keys[b]);
                        } else if b == old_keys.len() as int {
                            assert(old_keys[a] == new_keys[a]);
                        }
                    }
                },
            }
        }
        self.entries = entries;
        proof {
            assert(self.keys() == new_keys);
            assert forall|kk: Seq<char>|
                #[trigger] self.spec_entries().contains_key(kk) <==> old_entries.insert(
                    k,
                    e,
                ).contains_key(kk) by {
                if kk != k {
                    if old_keys.contains(kk) {
                        let j = choose|j: int| 0 <= j < old_keys.len() && old_keys[j] == kk;
                        assert(new_keys[j] == kk);
                    }
                    if new_keys.contains(kk) {
                        let j = choose|j: int| 0 <= j < new_keys.len() && new_keys[j] == kk;
                        assert(old_keys[j] == kk);
                    }
                } else {
                    match pos {
                        Some(i) => assert(new_keys[i as int] == k),
                        None => assert(new_keys[old_keys.len() as int] == k),
                    }
                }
            }
            assert forall|kk: Seq<char>| #[trigger]
                self.spec_entries().contains_key(kk) implies self.spec_entries()[kk]
                == old_entries.insert(k, e)[kk] by {
                lemma_index_from(new_keys, kk, 0);
                lemma_index_from(old_keys, kk, 0);
                let j = first_index(new_keys, kk)->0;
                if kk == k {
                    match pos {
                        Some(i) => {
                            assert(new_keys[i as int] == k);
                            assert(j == i);
                        },
                        None => {
                            assert(new_keys[old_keys.len() as int] == k);
                            assert(j == old_keys.len());
                        },
                    }
                } else {
                    let j2 = first_index(old_keys, kk)->0;
                    assert(new_keys[j2] == kk);
                    assert(old_keys[j] == kk);
                    assert(j == j2);
                }
            }
            assert(self.spec_entries() =~= old_entries.insert(k, e));
        }
    }
}

/// Byte-wise equality.
fn bytes_eq(a: &[u8], b: &[u8]) -> (r: bool)
    ensures
        r == (a@ == b@),
{
    if a.len() != b.len() {
        return false;
    }
    let mut i: usize = 0;
    while i < a.len()
        invariant
            0 <= i <= a@.len(),
            a@.len() == b@.len(),
            forall|j: int| 0 <= j < i ==> a@[j] == b@[j],
        decreases a@.len() - i,
    {
        if a[i] != b[i] {
            return false;
        }
        i += 1;
    }
    assert(a@ =~= b@);
    true
}

/// Distinct suffixes give distinct keys.
proof fn lemma_suffixed_key_injective(hash: Seq<char>, a: nat, b: nat)
    requires
        suffixed_key(hash, a) == suffixed_key(hash, b),
    ensures
        a == b,
{
    let ka = suffixed_key(hash, a);
    let kb = suffixed_key(hash, b);
    let n = hash.len() + 1;
    assert(ka.subrange(n as int, ka.len() as int) =~= decimal(a));
    assert(kb.subrange(n as int, kb.len() as int) =~= decimal(b));
    lemma_decimal_injective(a, b);
}

impl AssetStore {
    /// SHA-256 of the content, first 8 bytes as 16 lower-case hex characters.
    pub fn compute_hash(data: &[u8]) -> (r: String)
        ensures
            r@ == content_hash(data@),
            r@.len() == 16,
            forall|i: int| 0 <= i < r@.len() ==> is_hex_digit_char(#[trigger] r@[i]),
    {
        let digest = sha256(data);
        let mut prefix: Vec<u8> = Vec::new();
        let mut i: usize = 0;
        while i < 8
            invariant
                0 <= i <= 8,
                digest@.len() == 32,
                prefix@ == digest@.take(i as int),
            decreases 8 - i,
        {
            prefix.push(digest[i]);
            proof {
                assert(prefix@ =~= digest@.take(i + 1));
            }
            i += 1;
        }
        proof {
            lemma_hex_of_len(prefix@);
            lemma_hex_of_digits(prefix@);
        }
        hex_encode(prefix.as_slice())
    }

    /// Register image bytes under their content hash and return the relative
    /// path `assets/{key}.{ext}` under which documents refer to them.
    /// Identical content (or an on-disk asset with the same hash) is stored
    /// once; different content with the same hash gets the first free key
    /// `{hash}_{n}`, n from 2 on.
    pub fn add_image(&mut self, data: Vec<u8>, ext: &str) -> (r: String)
        requires
            old(self).spec_len() + 3 < u64::MAX,
        ensures
            image_added(old(self).spec_entries(), data@, ext@, r@, final(self).spec_entries()),
            final(self).spec_len() <= old(self).spec_len() + 1,
    {
        proof {
            use_type_invariant(&*self);
            self.lemma_len();
        }
        let hash = Self::compute_hash(data.as_slice());
        let ghost h = hash@;
        let ghost m = self.spec_entries();
        match self.position(hash.as_str()) {
            None => {
                assert(!m.contains_key(h));
                let path = make_asset_path(hash.as_str(), ext);
                self.insert(hash, AssetEntry::Loaded(data));
                proof {
                    use_type_invariant(&*self);
                    self.lemma_len();
                    lemma_len_insert_le(m, h, EntryView::Loaded(data@));
                }
                return path;
            },
            Some(i) => {
                proof {
                    self.lemma_entry_at(i as int);
                }
                let same = match &self.entries[i].1 {
                    AssetEntry::OnDisk(_) => true,
                    AssetEntry::Loaded(b) => bytes_eq(b.as_slice(), data.as_slice()),
                };
                if same {
                    return make_asset_path(hash.as_str(), ext);
                }
            },
        }
        let mut suffix: u64 = 2;
        loop
            invariant
                m == self.spec_entries(),
                m == old(self).spec_entries(),
                self.spec_len() == old(self).spec_len(),
                h == hash@,
                h == content_hash(data@),
                self.keys().no_duplicates(),
                m.dom().len() == self.spec_len(),
                m.dom().finite(),
                self.spec_len() + 3 < u64::MAX,
                2 <= suffix <= self.spec_len() + 2,
                forall|j: nat| 2 <= j < suffix ==> m.contains_key(#[trigger] suffixed_key(h, j)),
                m.contains_key(h) && m[h] is Loaded && m[h] != EntryView::Loaded(data@),
            decreases self.spec_len() + 2 - suffix,
        {
            let mut key = String::from_str(hash.as_str());
            key.append("_");
            let digits = decimal_string(suffix);
            key.append(digits.as_str());
            proof {
                reveal_strlit("_");
                assert(key@ =~= suffixed_key(h, suffix as nat));
            }
            match self.position(key.as_str()) {
                None => {
                    let ghost k = key@;
                    let path = make_asset_path(key.as_str(), ext);
                    self.insert(key, AssetEntry::Loaded(data));
                    proof {
                        use_type_invariant(&*self);
                        self.lemma_len();
                        lemma_len_insert_le(m, k, EntryView::Loaded(data@));
                        assert(first_free_suffix(m, h, suffix as nat));
                    }
                    return path;
                },
                Some(p) => {
                    proof {
                        assert(self.keys()[p as int] == key@);
                        assert(m.contains_key(suffixed_key(h, suffix as nat)));
                        let ks = Seq::new((suffix - 1) as nat, |i: int| suffixed_key(h, (i + 2) as nat));
                        assert forall|a: int, b: int|
                            0 <= a < ks.len() && 0 <= b < ks.len() && a != b implies ks[a] != ks[b] by {
                            if ks[a] == ks[b] {
                                lemma_suffixed_key_injective(h, (a + 2) as nat, (b + 2) as nat);
                            }
                        }
                        assert forall|i: int| 0 <= i < ks.len() implies self.keys().contains(
                            #[trigger] ks[i],
                        ) by {
                            assert(m.contains_key(suffixed_key(h, (i + 2) as nat)));
                        }
                        lemma_distinct_within(ks, self.keys());
                    }
                    suffix = suffix + 1;
                },
            }
        }
    }

    /// Bytes of an asset that is loaded in memory; `None` for an asset that
    /// is only on disk or not stored.
    pub fn get_loaded(&self, hash: &str) -> (r: Option<&[u8]>)
        ensures
            match r {
                Some(b) => self.spec_entries().contains_key(hash@) && self.spec_entries()[hash@]
                    == EntryView::Loaded(b@),
                None => !(self.spec_entries().contains_key(hash@) && self.spec_entries()[hash@] is Loaded),
            },
    {
        proof {
            use_type_invariant(self);
        }
        match self.position(hash) {
            None => None,
            Some(i) => {
                proof {
                    self.lemma_entry_at(i as int);
                }
                match &self.entries[i].1 {
                    AssetEntry::Loaded(b) => Some(b.as_slice()),
                    AssetEntry::OnDisk(_) => None,
                }
            },
        }
    }

    /// The disk path of an asset that still has to be loaded.
    pub fn disk_path(&self, hash: &str) -> (r: Option<String>)
        ensures
            match r {
                Some(p) => self.spec_entries().contains_key(hash@) && self.spec_entries()[hash@]
                    == EntryView::OnDisk(p@),
                None => !(self.spec_entries().contains_key(hash@) && self.spec_entries()[hash@] is OnDisk),
            },
    {
        proof {
            use_type_invariant(self);
        }
        match self.position(hash) {
            None => None,
            Some(i) => {
                proof {
                    self.lemma_entry_at(i as int);
                }
                match &self.entries[i].1 {
                    AssetEntry::OnDisk(p) => Some(p.clone()),
                    AssetEntry::Loaded(_) => None,
                }
            },
        }
    }

    /// Image bytes by key. An on-disk asset is loaded from `disk_read`, the
    /// outcome of reading its file (given exactly when the asset is on disk):
    /// a read error is reported as `Io`, read bytes replace the on-disk entry.
    /// A key that is not stored gives `NotFound`.
    pub fn get_image(&mut self, hash: &str, disk_read: Option<Result<Vec<u8>, String>>) -> (r:
        Result<&[u8], AssetError>)
        requires
            (old(self).spec_entries().contains_key(hash@) && old(self).spec_entries()[hash@] is OnDisk)
                <==> disk_read is Some,
        ensures
            disk_read matches Some(Err(msg)) ==> final(self).spec_entries() == old(self).spec_entries()
                && (r matches Err(AssetError::Io(m)) && m@ == msg@),
            disk_read matches Some(Ok(bytes)) ==> final(self).spec_entries() == old(
                self,
            ).spec_entries().insert(hash@, EntryView::Loaded(bytes@)) && (r matches Ok(b) && b@
                == bytes@),
            disk_read is None ==> final(self).spec_entries() == old(self).spec_entries(),
            disk_read is None && old(self).spec_entries().contains_key(hash@) ==> (r matches Ok(b)
                && old(self).spec_entries()[hash@] == EntryView::Loaded(b@)),
            disk_read is None && !old(self).spec_entries().contains_key(hash@) ==> (r matches Err(
                AssetError::NotFound(k),
            ) && k@ == hash@),
    {
        let ghost dr = disk_read;
        if let Some(read) = disk_read {
            match read {
                Err(msg) => {
                    return Err(AssetError::Io(msg));
                },
                Ok(bytes) => {
                    let ghost bv = bytes@;
                    self.insert(String::from_str(hash), AssetEntry::Loaded(bytes));
                    assert(self.spec_entries().contains_key(hash@));
                    assert(self.spec_entries()[hash@] == EntryView::Loaded(bv));
                },
            }
        }
        proof {
            use_type_invariant(&*self);
            assert(!(dr matches Some(Err(_))));
        }
        match self.position(hash) {
            None => Err(AssetError::NotFound(String::from_str(hash))),
            Some(i) => {
                proof {
                    self.lemma_entry_at(i as int);
                }
                match &self.entries[i].1 {
                    AssetEntry::Loaded(b) => {
                        assert(self.spec_entries()[hash@] == EntryView::Loaded(b@));
                        Ok(b.as_slice())
                    },
                    AssetEntry::OnDisk(_) => Err(AssetError::NotFound(String::from_str(hash))),
                }
            },
        }
    }

    /// Register an on-disk asset (loaded lazily), replacing any entry with
    /// the same key.
    pub fn register_on_disk(&mut self, hash: String, path: String)
        ensures
            final(self).spec_entries() == old(self).spec_entries().insert(
                hash@,
                EntryView::OnDisk(path@),
            ),
    {
        self.insert(hash, AssetEntry::OnDisk(path));
    }

    /// Register bytes under a known key, replacing any entry with that key.
    pub fn add_image_with_hash(&mut self, hash: String, data: Vec<u8>)
        ensures
            final(self).spec_entries() == old(self).spec_entries().insert(
                hash@,
                EntryView::Loaded(data@),
            ),
    {
        self.insert(hash, AssetEntry::Loaded(data));
    }

    /// Number of entries.
    pub fn len(&self) -> (r: usize)
        ensures
            r == self.spec_entries().dom().len(),
            self.spec_entries().dom().finite(),
    {
        proof {
            use_type_invariant(self);
            self.lemma_len();
        }
        self.entries.len()
    }

    /// Whether the store is empty.
    pub fn is_empty(&self) -> (r: bool)
        ensures
            r == (self.spec_entries().dom().len() == 0),
            self.spec_entries().dom().finite(),
    {
        proof {
            use_type_invariant(self);
            self.lemma_len();
        }
        self.entries.len() == 0
    }

    /// All entries with their keys, each key once.
    pub fn iter(&self) -> (r: Vec<(&str, &AssetEntry)>)
        ensures
            r@.len() == self.spec_entries().dom().len(),
            forall|i: int|
                0 <= i < r@.len() ==> self.spec_entries().contains_key(#[trigger] r@[i].0@)
                    && self.spec_entries()[r@[i].0@] == r@[i].1@,
            forall|i: int, j: int| 0 <= i < j < r@.len() ==> r@[i].0@ != r@[j].0@,
    {
        proof {
            use_type_invariant(self);
            self.lemma_len();
        }
        let mut r: Vec<(&str, &AssetEntry)> = Vec::new();
        let mut i: usize = 0;
        while i < self.entries.len()
            invariant
                0 <= i <= self.entries@.len(),
                self.keys().no_duplicates(),
                r@.len() == i,
                forall|k: int|
                    0 <= k < i ==> (#[trigger] r@[k]).0@ == self.entries@[k].0@ && *r@[k].1
                        == self.entries@[k].1,
            decreases self.entries@.len() - i,
        {
            r.push((self.entries[i].0.as_str(), &self.entries[i].1));
            i += 1;
        }
        proof {
            assert forall|k: int|
                0 <= k < r@.len() implies self.spec_entries().contains_key(#[trigger] r@[k].0@)
                && self.spec_entries()[r@[k].0@] == r@[k].1@ by {
                self.lemma_entry_at(k);
            }
            assert forall|a: int, b: int| 0 <= a < b < r@.len() implies r@[a].0@ != r@[b].0@ by {
                assert(self.keys()[a] == r@[a].0@);
                assert(self.keys()[b] == r@[b].0@);
            }
        }
        r
    }

    /// Keys and paths of all assets that are still on disk.
    pub fn on_disk_entries(&self) -> (r: Vec<(String, String)>)
        ensures
            forall|i: int|
                0 <= i < r@.len() ==> self.spec_entries().contains_key(#[trigger] r@[i].0@)
                    && self.spec_entries()[r@[i].0@] == EntryView::OnDisk(r@[i].1@),
            forall|k: Seq<char>|
                #![trigger self.spec_entries()[k]]
                self.spec_entries().contains_key(k) && self.spec_entries()[k] is OnDisk ==> exists|
                    i: int,
                | 0 <= i < r@.len() && #[trigger] r@[i].0@ == k,
    {
        proof {
            use_type_invariant(self);
        }
        let mut r: Vec<(String, String)> = Vec::new();
        let mut i: usize = 0;
        while i < self.entries.len()
            invariant
                0 <= i <= self.entries@.len(),
                self.keys().no_duplicates(),
                forall|k: int|
                    0 <= k < r@.len() ==> self.spec_entries().contains_key(#[trigger] r@[k].0@)
                        && self.spec_entries()[r@[k].0@] == EntryView::OnDisk(r@[k].1@),
                forall|k: int|
                    0 <= k < i && self.entries@[k].1 is OnDisk ==> exists|j: int|
                        0 <= j < r@.len() && #[trigger] r@[j].0@ == self.entries@[k].0@,
            decreases self.entries@.len() - i,
        {
            proof {
                self.lemma_entry_at(i as int);
            }
            match &self.entries[i].1 {
                AssetEntry::OnDisk(p) => {
                    let ghost old_r = r@;
                    r.push((self.entries[i].0.clone(), p.clone()));
                    proof {
                        assert forall|k: int|
                            0 <= k < i + 1 && self.entries@[k].1 is OnDisk implies exists|j: int|
                                0 <= j < r@.len() && #[trigger] r@[j].0@ == self.entries@[k].0@ by {
                            if k < i {
                                let j = choose|j: int|
                                    0 <= j < old_r.len() && #[trigger] old_r[j].0@
                                        == self.entries@[k].0@;
                                assert(r@[j] == old_r[j]);
                            } else {
                                assert(r@[old_r.len() as int].0@ == self.entries@[k].0@);
                            }
                        }
                    }
                },
                AssetEntry::Loaded(_) => {},
            }
            i += 1;
        }
        proof {
            assert forall|k: Seq<char>|
                #![trigger self.spec_entries()[k]]
                self.spec_entries().contains_key(k) && self.spec_entries()[k] is OnDisk implies exists|
                    i: int,
                | 0 <= i < r@.len() && #[trigger] r@[i].0@ == k by {
                lemma_index_from(self.keys(), k, 0);
                let j = first_index(self.keys(), k)->0;
                assert(self.entries@[j].0@ == k);
            }
        }
        r
    }
}

/// Inserting into a finite map adds at most one key.
proof fn lemma_len_insert_le(m: Map<Seq<char>, EntryView>, k: Seq<char>, v: EntryView)
    requires
        m.dom().finite(),
    ensures
        m.insert(k, v).dom().len() <= m.dom().len() + 1,
{
    if m.contains_key(k) {
        assert(m.insert(k, v).dom() =~= m.dom());
    } else {
        assert(m.insert(k, v).dom() =~= m.dom().insert(k));
    }
}

} // verus!
