//! Station keys, their sampling hash, and the hash table that maps each
//! key to its aggregate cell.
//!
//! Keys are short byte strings: an owned key stores its bytes inline in a
//! fixed 56-byte buffer, and a borrowed view lets a slice of the input be
//! hashed and compared without allocating. The table itself is an
//! open-addressing map; its observable content is modelled as a map from
//! key bytes to aggregate cells. The sampling hash is exposed for callers
//! that route keys themselves; the table wrapper hashes the key bytes
//! internally, so its contract is independent of the routing.

use vstd::prelude::*;
use crate::memops::memeq64_unchecked;
use crate::temperature_summary::TemperatureSummary;

verus! {

/// Multiplier of the mixing steps of the sampling hash.
pub const SEED: u64 = 0xf1357aea2e62a9c5;

/// Product modulo 2^64.
pub open spec fn wrap_mul64(a: u64, b: u64) -> u64 {
    ((a * b) % 0x1_0000_0000_0000_0000) as u64
}

/// The sampling hash: four bytes picked from fixed relative positions,
/// packed into a word together with the length, then mixed twice. Two
/// equal byte strings always hash alike; unequal ones may collide, which
/// the table resolves by comparing bytes.
pub open spec fn hash64_spec(bytes: Seq<u8>) -> u64 {
    let len = bytes.len() as u64;
    let b0 = bytes[0] as u64;
    let b1 = bytes[bytes.len() as int / 4] as u64;
    let b2 = bytes[bytes.len() as int / 2] as u64;
    let b3 = bytes[bytes.len() as int - 1] as u64;
    let x = (b0 << 56) | (b1 << 48) | (b2 << 40) | (b3 << 32);
    let h0 = x ^ len;
    let h1 = wrap_mul64(h0, SEED);
    let h2 = h1 ^ (h1 >> 32);
    let h3 = wrap_mul64(h2, SEED);
    h3 ^ (h3 >> 32)
}

/// Computes the sampling hash of a nonempty byte string.
pub fn hash64(bytes: &[u8]) -> (r: u64)
    requires
        bytes@.len() >= 1,
    ensures
        r == hash64_spec(bytes@),
{
    let len = bytes.len();
    let b0 = bytes[0] as u64;
    let b1 = bytes[len / 4] as u64;
    let b2 = bytes[len / 2] as u64;
    let b3 = bytes[len - 1] as u64;

    let x: u64 = (b0 << 56u64) | (b1 << 48u64) | (b2 << 40u64) | (b3 << 32u64);
    let mut hash: u64 = x ^ (len as u64);
    hash = hash.wrapping_mul(SEED);
    hash = hash ^ (hash >> 32u64);
    hash = hash.wrapping_mul(SEED);
    hash = hash ^ (hash >> 32u64);
    hash
}

/// A borrowed stand-in for a key: the same bytes, hash and equality as an
/// owned key, without owning or copying anything.
pub struct StationNameKeyView<'a> {
    pub name: &'a [u8],
}

impl<'a> View for StationNameKeyView<'a> {
    type V = Seq<u8>;

    open spec fn view(&self) -> Seq<u8> {
        self.name@
    }
}

impl<'a> StationNameKeyView<'a> {
    pub fn new(name: &'a [u8]) -> (r: StationNameKeyView<'a>)
        ensures
            r@ == name@,
    {
        StationNameKeyView { name }
    }

    /// The key's sampling hash, for the table to use verbatim.
    pub fn hash_u64(&self) -> (r: u64)
        requires
            self@.len() >= 1,
        ensures
            r == hash64_spec(self@),
    {
        hash64(self.name)
    }

    /// Byte equality of two views whose lengths fit the safety window.
    pub fn equals(&self, other: &StationNameKeyView<'_>) -> (r: bool)
        requires
            self@.len() <= 64,
        ensures
            r == (self@ == other@),
    {
        let r = memeq64_unchecked(self.name, other.name);
        proof {
            if r {
                assert(self@ =~= other@);
            }
        }
        r
    }
}

/// Inline storage capacity of an owned key, in bytes.
pub const INLINE_STRING_SIZE: usize = 56;

/// A byte string stored inline: a fixed buffer plus the logical length.
/// Bytes past the length are zero, so equal logical contents mean equal
/// buffers.
struct InlineString {
    data: [u8; INLINE_STRING_SIZE],
    len: usize,
}

impl InlineString {
    spec fn wf(&self) -> bool {
        &&& self.len <= INLINE_STRING_SIZE
        &&& forall|j: int| self.len <= j < INLINE_STRING_SIZE ==> self.data@[j] == 0
    }

    spec fn bytes(&self) -> Seq<u8> {
        self.data@.take(self.len as int)
    }

    fn new(s: &[u8]) -> (r: InlineString)
        requires
            s@.len() <= INLINE_STRING_SIZE,
        ensures
            r.wf(),
            r.bytes() == s@,
    {
        let mut data: [u8; INLINE_STRING_SIZE] = [0; INLINE_STRING_SIZE];
        let mut i: usize = 0;
        while i < s.len()
            invariant
                0 <= i <= s@.len() <= INLINE_STRING_SIZE,
                forall|j: int| 0 <= j < i ==> data@[j] == s@[j],
                forall|j: int| i <= j < INLINE_STRING_SIZE ==> data@[j] == 0,
            decreases s@.len() - i,
        {
            data[i] = s[i];
            i = i + 1;
        }
        let r = InlineString { data, len: s.len() };
        proof {
            assert(r.bytes() =~= s@);
        }
        r
    }

    fn as_bytes<'a>(&'a self) -> (r: &'a [u8])
        requires
            self.len <= INLINE_STRING_SIZE,
        ensures
            r@ == self.bytes(),
    {
        vstd::slice::slice_subrange(self.data.as_slice(), 0, self.len)
    }
}

/// An owned key: the station name held inline, without heap indirection.
pub struct StationNameKey {
    name: InlineString,
}

impl StationNameKey {
    /// The logical bytes of the key.
    pub closed spec fn bytes(&self) -> Seq<u8> {
        self.name.bytes()
    }

    pub closed spec fn wf(&self) -> bool {
        self.name.wf()
    }

    /// Copies the name into inline storage. Names longer than the inline
    /// capacity break the input contract and are ruled out by the caller.
    pub fn new(name: &[u8]) -> (r: StationNameKey)
        requires
            name@.len() <= INLINE_STRING_SIZE,
        ensures
            r.wf(),
            r.bytes() == name@,
    {
        StationNameKey { name: InlineString::new(name) }
    }

    /// A borrowed view over the owned bytes, interchangeable with a view
    /// taken directly over the input.
    pub fn view<'a>(&'a self) -> (r: StationNameKeyView<'a>)
        requires
            self.wf(),
        ensures
            r@ == self.bytes(),
    {
        StationNameKeyView { name: self.name.as_bytes() }
    }

    /// The owned bytes of the key.
    pub fn to_bytes(&self) -> (r: Vec<u8>)
        requires
            self.wf(),
        ensures
            r@ == self.bytes(),
    {
        vstd::slice::slice_to_vec(self.name.as_bytes())
    }
}

/// The hash table from station name bytes to aggregate cells. The
/// underlying open-addressing table is `hashbrown::HashMap`; the library
/// sees it only through `station_map_contents`, the map of key bytes to
/// cells it holds.
#[verifier::external_body]
pub struct StationMap {
    map: hashbrown::HashMap<Vec<u8>, TemperatureSummary>,
}

/// What the table holds: each stored key's bytes, mapped to its cell.
pub uninterp spec fn station_map_contents(m: StationMap) -> Map<Seq<u8>, TemperatureSummary>;

impl StationMap {
    /// Relies on `hashbrown::HashMap::with_capacity`: a fresh table holds
    /// nothing, whatever capacity is reserved.
    #[verifier::external_body]
    fn with_capacity(capacity: usize) -> (r: StationMap)
        ensures
            forall|k: Seq<u8>| !station_map_contents(r).dom().contains(k),
    {
        StationMap { map: hashbrown::HashMap::with_capacity(capacity) }
    }

    /// Relies on `hashbrown::HashMap::get`: `Some` with the stored value
    /// exactly when the key is present.
    #[verifier::external_body]
    pub fn get_copied(&self, key: &[u8]) -> (r: Option<TemperatureSummary>)
        ensures
            match r {
                Some(c) => station_map_contents(*self).contains_pair(key@, c),
                None => !station_map_contents(*self).dom().contains(key@),
            },
    {
        self.map.get(key).copied()
    }

    /// Relies on `hashbrown::HashMap::insert`: afterwards the key maps to
    /// the given value and every other key is unaffected.
    #[verifier::external_body]
    pub fn insert(&mut self, key: Vec<u8>, value: TemperatureSummary)
        ensures
            station_map_contents(*final(self)) == station_map_contents(*old(self)).insert(
                key@,
                value,
            ),
    {
        self.map.insert(key, value);
    }

    /// Relies on `hashbrown::HashMap::into_iter`: it yields every stored
    /// entry exactly once, in no particular order.
    #[verifier::external_body]
    pub fn into_entries(self) -> (r: Vec<(Vec<u8>, TemperatureSummary)>)
        ensures
            forall|i: int|
                0 <= i < r@.len() ==> station_map_contents(self).contains_pair(
                    (#[trigger] r@[i]).0@,
                    r@[i].1,
                ),
            forall|i: int, j: int| 0 <= i < j < r@.len() ==> r@[i].0@ != r@[j].0@,
            forall|k: Seq<u8>|
                #[trigger] station_map_contents(self).dom().contains(k) ==> exists|i: int|
                    0 <= i < r@.len() && r@[i].0@ == k,
    {
        self.map.into_iter().collect()
    }
}

/// How the table is set up: the expected number of distinct keys, from
/// which the initial capacity is sized, and whether the backing store
/// should ask the OS for huge pages. The huge-page request is advisory;
/// where the embedding program supplies the backing memory itself, it is
/// free to ignore it.
pub struct StationMapOptions {
    pub request_hugepage: bool,
    pub capacity: usize,
}

/// A fresh, empty station table sized from the given options.
pub fn new_station_map(opts: &StationMapOptions) -> (r: StationMap)
    ensures
        station_map_contents(r) == Map::<Seq<u8>, TemperatureSummary>::empty(),
{
    let r = StationMap::with_capacity(opts.capacity);
    proof {
        assert(station_map_contents(r) =~= Map::<Seq<u8>, TemperatureSummary>::empty());
    }
    r
}

} // verus!
