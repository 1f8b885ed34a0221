//! The index of ordinary lines.
//!
//! An [`Index`] is a deduplicated set of sanitized lines that were observed
//! in historical, non-diagnostic logs. The extractor treats a line as a
//! diagnostic candidate exactly when the index does not contain its
//! sanitized form. The set is hashed with fnv's fast non-cryptographic
//! hasher; collision resistance against adversarial input is not required
//! for CI noise.

use vstd::prelude::*;

use std::collections::HashSet;

verus! {

/// Declares fnv's hasher so that the hashed set's type can stand in
/// signatures; the hasher itself is never inspected.
#[verifier::external_type_specification]
#[verifier::external_body]
pub struct ExFnvHasher(fnv::FnvHasher);

/// Declares the standard hasher-builder wrapper that `fnv::FnvBuildHasher`
/// abbreviates.
#[verifier::external_type_specification]
#[verifier::external_body]
#[verifier::reject_recursive_types(H)]
pub struct ExBuildHasherDefault<H>(core::hash::BuildHasherDefault<H>);

/// The sanitized lines that an fnv-hashed set holds, as a set of byte
/// sequences. The wrappers below state how each operation of the set
/// changes or reads this abstraction.
pub uninterp spec fn line_set_contents(s: HashSet<Vec<u8>, fnv::FnvBuildHasher>) -> Set<Seq<u8>>;

/// Relies on `HashSet::default` building an empty set with fnv's
/// `FnvBuildHasher` (fnv exposes this alias for exactly that use).
#[verifier::external_body]
fn line_set_new() -> (s: HashSet<Vec<u8>, fnv::FnvBuildHasher>)
    ensures
        line_set_contents(s) == Set::<Seq<u8>>::empty(),
{
    HashSet::default()
}

/// Relies on `HashSet::insert`: afterwards the set holds the old elements
/// and the new one.
#[verifier::external_body]
fn line_set_insert(s: &mut HashSet<Vec<u8>, fnv::FnvBuildHasher>, v: Vec<u8>)
    ensures
        line_set_contents(*final(s)) == line_set_contents(*old(s)).insert(v@),
{
    s.insert(v);
}

/// Relies on `HashSet::contains`: true exactly when an equal element is in
/// the set (`Vec<u8>` borrows as `[u8]`, and their equality is byte
/// equality).
#[verifier::external_body]
fn line_set_contains(s: &HashSet<Vec<u8>, fnv::FnvBuildHasher>, v: &[u8]) -> (r: bool)
    ensures
        r == line_set_contents(*s).contains(v@),
{
    s.contains(v)
}

/// Relies on `HashSet::iter` visiting each element exactly once, in an
/// unspecified order; nothing is stated of the order.
#[verifier::external_body]
fn line_set_items(s: &HashSet<Vec<u8>, fnv::FnvBuildHasher>) -> (r: Vec<Vec<u8>>)
    ensures
        r@.map_values(|v: Vec<u8>| v@).to_set() == line_set_contents(*s),
        r@.map_values(|v: Vec<u8>| v@).no_duplicates(),
{
    s.iter().cloned().collect()
}

/// A persisted record of which sanitized lines are ordinary.
///
/// Loaded once, then shared read-only by any number of concurrent
/// extraction runs; nothing here mutates it after training.
pub struct Index {
    set: HashSet<Vec<u8>, fnv::FnvBuildHasher>,
}

impl Index {
    /// The set of sanitized lines this index considers ordinary.
    pub closed spec fn contents(self) -> Set<Seq<u8>> {
        line_set_contents(self.set)
    }

    /// An index that recognizes nothing.
    pub fn new() -> (r: Index)
        ensures
            r.contents() == Set::<Seq<u8>>::empty(),
    {
        Index { set: line_set_new() }
    }

    /// Record one sanitized line as ordinary (the training step).
    pub fn learn(&mut self, sanitized: Vec<u8>)
        ensures
            final(self).contents() == old(self).contents().insert(sanitized@),
    {
        line_set_insert(&mut self.set, sanitized);
    }

    /// Membership test: is this sanitized line ordinary?
    pub fn contains(&self, sanitized: &[u8]) -> (r: bool)
        ensures
            r == self.contents().contains(sanitized@),
    {
        line_set_contains(&self.set, sanitized)
    }

    /// Serialize this index into the versioned binary container. The order
    /// in which the hashed set hands its items out is unspecified, so two
    /// saves of one index may produce different bytes; both decode to an
    /// index with the same contents.
    pub fn encode(&self) -> (r: Vec<u8>)
        ensures
            exists|items: Seq<Seq<u8>>|
                {
                    &&& #[trigger] spec_encode(items) == r@
                    &&& items.to_set() == self.contents()
                    &&& items.no_duplicates()
                },
    {
        let items = line_set_items(&self.set);
        let ghost gitems: Seq<Seq<u8>> = items@.map_values(|v: Vec<u8>| v@);
        let mut out: Vec<u8> = Vec::new();
        push_u64_le(&mut out, INDEX_FORMAT_VERSION);
        push_u64_le(&mut out, items.len() as u64);
        assert(out@ =~= u64_le_bytes(INDEX_FORMAT_VERSION) + u64_le_bytes(gitems.len() as u64));

        let mut k: usize = 0;
        while k < items.len()
            invariant
                0 <= k <= items.len(),
                gitems == items@.map_values(|v: Vec<u8>| v@),
                out@ == u64_le_bytes(INDEX_FORMAT_VERSION) + u64_le_bytes(gitems.len() as u64)
                    + spec_encode_items(gitems.take(k as int)),
            decreases items.len() - k,
        {
            let ghost done = gitems.take(k as int);
            let item = &items[k];
            assert(gitems[k as int] == item@);
            push_u64_le(&mut out, item.len() as u64);
            let mut j: usize = 0;
            let ghost mid = out@;
            while j < item.len()
                invariant
                    0 <= j <= item.len(),
                    out@ == mid + item@.take(j as int),
                decreases item.len() - j,
            {
                out.push(item[j]);
                assert(out@ =~= mid + item@.take(j as int + 1));
                j = j + 1;
            }
            assert(item@.take(item@.len() as int) =~= item@);
            proof {
                lemma_encode_items_push(done, item@);
                assert(done.push(item@) =~= gitems.take(k as int + 1));
                assert(out@ =~= u64_le_bytes(INDEX_FORMAT_VERSION) + u64_le_bytes(gitems.len() as u64)
                    + spec_encode_items(gitems.take(k as int + 1)));
            }
            k = k + 1;
        }
        proof {
            assert(gitems.take(gitems.len() as int) =~= gitems);
            assert(out@ == spec_encode(gitems));
            assert(gitems.to_set() == self.contents());
        }
        out
    }

    /// Parse the versioned binary container back into an index.
    ///
    /// The result is exactly what [`spec_decode`] assigns to the bytes: a
    /// container shorter than its header or with a truncated or
    /// overrunning payload is `Corrupt`, a container whose version tag is
    /// not [`INDEX_FORMAT_VERSION`] is `FormatMismatch`, and a well-formed
    /// container yields an index holding exactly the recorded lines.
    pub fn decode(bytes: &[u8]) -> (r: Result<Index, IndexLoadError>)
        ensures
            match spec_decode(bytes@) {
                Ok(items) => r matches Ok(idx) && idx.contents() == items.to_set(),
                Err(e) => r matches Err(e2) && e2 == e,
            },
    {
        if bytes.len() < 8 {
            return Err(IndexLoadError::Corrupt);
        }
        let version = read_u64_le(bytes, 0);
        if version != INDEX_FORMAT_VERSION {
            return Err(IndexLoadError::FormatMismatch);
        }
        if bytes.len() < 16 {
            return Err(IndexLoadError::Corrupt);
        }
        let count = read_u64_le(bytes, 8);
        let ghost total: nat = count as nat;
        let mut idx = Index::new();
        let ghost done: Seq<Seq<u8>> = Seq::empty();
        let mut pos: usize = 16;
        let mut k: u64 = 0;

        proof {
            assert(bytes@.subrange(0, 8) =~= bytes@.subrange(0, 8));
            assert(done + Seq::<Seq<u8>>::empty() =~= done);
        }

        while k < count
            invariant
                16 <= pos <= bytes@.len(),
                0 <= k <= count,
                spec_decode(bytes@) == (match spec_decode_items(
                    bytes@.skip(pos as int),
                    (count - k) as nat,
                ) {
                    Some(rest) => Ok::<Seq<Seq<u8>>, IndexLoadError>(done + rest),
                    None => Err::<Seq<Seq<u8>>, IndexLoadError>(IndexLoadError::Corrupt),
                }),
                idx.contents() == done.to_set(),
            decreases count - k,
        {
            let ghost tail = bytes@.skip(pos as int);
            let ghost remaining: nat = (count - k) as nat;
            if bytes.len() - pos < 8 {
                assert(spec_decode_items(tail, remaining) is None);
                return Err(IndexLoadError::Corrupt);
            }
            let n = read_u64_le(bytes, pos);
            assert(tail.subrange(0, 8) =~= bytes@.subrange(pos as int, pos as int + 8));
            let avail: u64 = (bytes.len() - pos - 8) as u64;
            if avail < n {
                assert(spec_decode_items(tail, remaining) is None);
                return Err(IndexLoadError::Corrupt);
            }
            let nn = n as usize;
            let item = slice_to_vec_range(bytes, pos + 8, pos + 8 + nn);
            assert(item@ =~= tail.subrange(8, 8 + n as int));
            idx.learn(item);
            proof {
                let rest_tail = bytes@.skip(pos as int + 8 + nn as int);
                assert(rest_tail =~= tail.skip(8 + n as int));
                let itemseq = tail.subrange(8, 8 + n as int);
                assert(spec_decode_items(tail, remaining) == (match spec_decode_items(
                    tail.skip(8 + n as int),
                    (remaining - 1) as nat,
                ) {
                    Some(rest) => Some(seq![itemseq] + rest),
                    None => None::<Seq<Seq<u8>>>,
                }));
                assert forall|rest: Seq<Seq<u8>>|
                    done + (seq![itemseq] + rest) =~= done.push(itemseq) + rest by {}
                lemma_to_set_push(done, itemseq);
            }
            let ghost done_next = done.push(item@);
            proof {
                done = done_next;
            }
            pos = pos + 8 + nn;
            k = k + 1;
        }

        if pos != bytes.len() {
            assert(spec_decode_items(bytes@.skip(pos as int), 0) is None);
            return Err(IndexLoadError::Corrupt);
        }
        proof {
            assert(bytes@.skip(pos as int).len() == 0);
            assert(spec_decode_items(bytes@.skip(pos as int), 0) == Some(Seq::<Seq<u8>>::empty()));
            assert(done + Seq::<Seq<u8>>::empty() =~= done);
        }
        Ok(idx)
    }
}

/// The version tag this build writes and understands.
pub const INDEX_FORMAT_VERSION: u64 = 1;

/// Loading a stored index can fail; extraction itself cannot.
#[derive(Clone, Copy, Debug, PartialEq, Eq, Structural)]
pub enum IndexLoadError {
    /// The storage location has no data yet.
    NotFound,
    /// The stored version tag is not understood by this build.
    FormatMismatch,
    /// The payload does not deserialize.
    Corrupt,
}

/// The eight little-endian bytes of a 64-bit integer.
pub open spec fn u64_le_bytes(n: u64) -> Seq<u8> {
    seq![
        (n & 0xff) as u8,
        ((n >> 8) & 0xff) as u8,
        ((n >> 16) & 0xff) as u8,
        ((n >> 24) & 0xff) as u8,
        ((n >> 32) & 0xff) as u8,
        ((n >> 40) & 0xff) as u8,
        ((n >> 48) & 0xff) as u8,
        ((n >> 56) & 0xff) as u8,
    ]
}

/// The 64-bit integer whose little-endian bytes are the first eight of
/// `s`.
pub open spec fn le_to_u64(s: Seq<u8>) -> u64
    recommends
        s.len() == 8,
{
    (s[0] as u64) | ((s[1] as u64) << 8) | ((s[2] as u64) << 16) | ((s[3] as u64) << 24)
        | ((s[4] as u64) << 32) | ((s[5] as u64) << 40) | ((s[6] as u64) << 48) | (
    (s[7] as u64) << 56)
}

/// Reading back the little-endian bytes of `n` gives `n`.
pub proof fn lemma_u64_le_roundtrip(n: u64)
    ensures
        le_to_u64(u64_le_bytes(n)) == n,
{
    assert(((n & 0xff) | (((n >> 8) & 0xff) << 8) | (((n >> 16) & 0xff) << 16) | (((n >> 24)
        & 0xff) << 24) | (((n >> 32) & 0xff) << 32) | (((n >> 40) & 0xff) << 40) | (((n >> 48)
        & 0xff) << 48) | (((n >> 56) & 0xff) << 56)) == n) by (bit_vector);
    assert(n & 0xff < 256 && (n >> 8) & 0xff < 256 && (n >> 16) & 0xff < 256 && (n >> 24) & 0xff
        < 256 && (n >> 32) & 0xff < 256 && (n >> 40) & 0xff < 256 && (n >> 48) & 0xff < 256 && (n
        >> 56) & 0xff < 256) by (bit_vector);
    let s = u64_le_bytes(n);
    assert(s[0] == (n & 0xff) as u8);
    assert(s[1] == ((n >> 8) & 0xff) as u8);
    assert(s[2] == ((n >> 16) & 0xff) as u8);
    assert(s[3] == ((n >> 24) & 0xff) as u8);
    assert(s[4] == ((n >> 32) & 0xff) as u8);
    assert(s[5] == ((n >> 40) & 0xff) as u8);
    assert(s[6] == ((n >> 48) & 0xff) as u8);
    assert(s[7] == ((n >> 56) & 0xff) as u8);
}

/// One stored item: an eight-byte length, then the bytes themselves.
pub open spec fn spec_encode_item(item: Seq<u8>) -> Seq<u8> {
    u64_le_bytes(item.len() as u64) + item
}

/// The payload: the stored items, one after the other.
pub open spec fn spec_encode_items(items: Seq<Seq<u8>>) -> Seq<u8>
    decreases items.len(),
{
    if items.len() == 0 {
        Seq::empty()
    } else {
        spec_encode_item(items.first()) + spec_encode_items(items.drop_first())
    }
}

/// The whole container: version tag, item count, payload.
pub open spec fn spec_encode(items: Seq<Seq<u8>>) -> Seq<u8> {
    u64_le_bytes(INDEX_FORMAT_VERSION) + u64_le_bytes(items.len() as u64) + spec_encode_items(
        items,
    )
}

/// Parse `count` length-prefixed items that must consume `b` exactly.
pub open spec fn spec_decode_items(b: Seq<u8>, count: nat) -> Option<Seq<Seq<u8>>>
    decreases count,
{
    if count == 0 {
        if b.len() == 0 {
            Some(Seq::empty())
        } else {
            None
        }
    } else if b.len() < 8 {
        None
    } else {
        let n = le_to_u64(b.subrange(0, 8)) as int;
        if b.len() - 8 < n {
            None
        } else {
            match spec_decode_items(b.skip(8 + n), (count - 1) as nat) {
                Some(rest) => Some(seq![b.subrange(8, 8 + n)] + rest),
                None => None,
            }
        }
    }
}

/// What any byte sequence decodes to: the items of a well-formed
/// container, or the one error that names what is wrong with it.
pub open spec fn spec_decode(bytes: Seq<u8>) -> Result<Seq<Seq<u8>>, IndexLoadError> {
    if bytes.len() < 8 {
        Err(IndexLoadError::Corrupt)
    } else if le_to_u64(bytes.subrange(0, 8)) != INDEX_FORMAT_VERSION {
        Err(IndexLoadError::FormatMismatch)
    } else if bytes.len() < 16 {
        Err(IndexLoadError::Corrupt)
    } else {
        match spec_decode_items(bytes.skip(16), le_to_u64(bytes.subrange(8, 16)) as nat) {
            Some(items) => Ok(items),
            None => Err(IndexLoadError::Corrupt),
        }
    }
}

proof fn lemma_encode_items_push(items: Seq<Seq<u8>>, item: Seq<u8>)
    ensures
        spec_encode_items(items.push(item)) == spec_encode_items(items) + spec_encode_item(item),
    decreases items.len(),
{
    if items.len() == 0 {
        assert(items.push(item).drop_first() =~= Seq::<Seq<u8>>::empty());
        assert(items.push(item).first() == item);
        assert(spec_encode_items(Seq::<Seq<u8>>::empty()) == Seq::<u8>::empty());
        assert(spec_encode_items(items) == Seq::<u8>::empty());
        assert(spec_encode_items(items.push(item)) == spec_encode_item(item) + spec_encode_items(
            Seq::<Seq<u8>>::empty(),
        ));
        assert(spec_encode_item(item) + Seq::<u8>::empty() =~= spec_encode_item(item));
        assert(Seq::<u8>::empty() + spec_encode_item(item) =~= spec_encode_item(item));
    } else {
        assert(items.push(item).drop_first() =~= items.drop_first().push(item));
        assert(items.push(item).first() == items.first());
        lemma_encode_items_push(items.drop_first(), item);
        assert(spec_encode_items(items.push(item)) == spec_encode_item(items.first())
            + spec_encode_items(items.drop_first().push(item)));
        assert(spec_encode_items(items) == spec_encode_item(items.first()) + spec_encode_items(
            items.drop_first(),
        ));
        assert(spec_encode_item(items.first()) + (spec_encode_items(items.drop_first())
            + spec_encode_item(item)) =~= (spec_encode_item(items.first()) + spec_encode_items(
            items.drop_first(),
        )) + spec_encode_item(item));
    }
}

proof fn lemma_to_set_push(s: Seq<Seq<u8>>, x: Seq<u8>)
    ensures
        s.push(x).to_set() == s.to_set().insert(x),
{
    assert(s.push(x).to_set() =~= s.to_set().insert(x)) by {
        assert forall|e: Seq<u8>| s.push(x).to_set().contains(e) implies s.to_set().insert(x)
            .contains(e) by {
            let i = choose|i: int| 0 <= i < s.push(x).len() && s.push(x)[i] == e;
            if i < s.len() {
                assert(s[i] == e);
                assert(s.to_set().contains(e));
            }
        }
        assert forall|e: Seq<u8>| s.to_set().insert(x).contains(e) implies s.push(x).to_set()
            .contains(e) by {
            if e == x {
                assert(s.push(x)[s.len() as int] == x);
            } else {
                assert(s.to_set().contains(e));
                let i = choose|i: int| 0 <= i < s.len() && s[i] == e;
                assert(s.push(x)[i] == e);
            }
        }
    }
}

/// Copy `bytes[lo..hi]` into an owned vector.
#[verifier::loop_isolation(false)]
fn slice_to_vec_range(bytes: &[u8], lo: usize, hi: usize) -> (r: Vec<u8>)
    requires
        lo <= hi <= bytes@.len(),
    ensures
        r@ == bytes@.subrange(lo as int, hi as int),
{
    let mut r: Vec<u8> = Vec::new();
    let mut j: usize = lo;
    while j < hi
        invariant
            lo <= j <= hi,
            r@ == bytes@.subrange(lo as int, j as int),
        decreases hi - j,
    {
        r.push(bytes[j]);
        assert(r@ =~= bytes@.subrange(lo as int, j as int + 1));
        j = j + 1;
    }
    r
}

/// Append the eight little-endian bytes of `n`.
fn push_u64_le(out: &mut Vec<u8>, n: u64)
    ensures
        final(out)@ == old(out)@ + u64_le_bytes(n),
{
    out.push((n & 0xff) as u8);
    out.push(((n >> 8) & 0xff) as u8);
    out.push(((n >> 16) & 0xff) as u8);
    out.push(((n >> 24) & 0xff) as u8);
    out.push(((n >> 32) & 0xff) as u8);
    out.push(((n >> 40) & 0xff) as u8);
    out.push(((n >> 48) & 0xff) as u8);
    out.push(((n >> 56) & 0xff) as u8);
    assert(final(out)@ =~= old(out)@ + u64_le_bytes(n));
}

/// Read the eight little-endian bytes at `pos`.
fn read_u64_le(bytes: &[u8], pos: usize) -> (n: u64)
    requires
        pos + 8 <= bytes@.len(),
    ensures
        n == le_to_u64(bytes@.subrange(pos as int, pos as int + 8)),
{
    let n = (bytes[pos] as u64) | ((bytes[pos + 1] as u64) << 8) | ((bytes[pos + 2] as u64) << 16)
        | ((bytes[pos + 3] as u64) << 24) | ((bytes[pos + 4] as u64) << 32) | ((bytes[pos
        + 5] as u64) << 40) | ((bytes[pos + 6] as u64) << 48) | ((bytes[pos + 7] as u64) << 56);
    proof {
        let s = bytes@.subrange(pos as int, pos as int + 8);
        assert(s[0] == bytes@[pos as int]);
        assert(s[1] == bytes@[pos as int + 1]);
        assert(s[2] == bytes@[pos as int + 2]);
        assert(s[3] == bytes@[pos as int + 3]);
        assert(s[4] == bytes@[pos as int + 4]);
        assert(s[5] == bytes@[pos as int + 5]);
        assert(s[6] == bytes@[pos as int + 6]);
        assert(s[7] == bytes@[pos as int + 7]);
    }
    n
}

/// The round-trip law: a container written for any item list decodes to
/// exactly that item list. An index therefore answers `contains` after a
/// save and load exactly as it did before.
pub proof fn lemma_encode_decode_roundtrip(items: Seq<Seq<u8>>)
    requires
        items.len() <= u64::MAX,
        forall|k: int| 0 <= k < items.len() ==> (#[trigger] items[k]).len() <= u64::MAX,
    ensures
        spec_decode(spec_encode(items)) == Ok::<Seq<Seq<u8>>, IndexLoadError>(items),
{
    let bytes = spec_encode(items);
    lemma_u64_le_roundtrip(INDEX_FORMAT_VERSION);
    lemma_u64_le_roundtrip(items.len() as u64);
    assert(bytes.subrange(0, 8) =~= u64_le_bytes(INDEX_FORMAT_VERSION));
    assert(bytes.subrange(8, 16) =~= u64_le_bytes(items.len() as u64));
    assert(bytes.len() >= 16);
    assert(bytes.skip(16) =~= spec_encode_items(items));
    lemma_decode_encode_items(items);
}

proof fn lemma_decode_encode_items(items: Seq<Seq<u8>>)
    requires
        forall|k: int| 0 <= k < items.len() ==> (#[trigger] items[k]).len() <= u64::MAX,
    ensures
        spec_decode_items(spec_encode_items(items), items.len() as nat) == Some(items),
    decreases items.len(),
{
    if items.len() == 0 {
        assert(spec_encode_items(items).len() == 0);
    } else {
        let item = items.first();
        let b = spec_encode_items(items);
        lemma_u64_le_roundtrip(item.len() as u64);
        assert(b =~= (u64_le_bytes(item.len() as u64) + item) + spec_encode_items(
            items.drop_first(),
        ));
        assert(b.len() >= 8);
        assert(b.subrange(0, 8) =~= u64_le_bytes(item.len() as u64));
        let n = le_to_u64(b.subrange(0, 8)) as int;
        assert(n == item.len());
        assert(b.len() - 8 >= n);
        assert(b.subrange(8, 8 + n) =~= item);
        assert(b.skip(8 + n) =~= spec_encode_items(items.drop_first()));
        lemma_decode_encode_items(items.drop_first());
        assert(seq![item] + items.drop_first() =~= items);
    }
}

/// Membership survives the save/load round trip: any line recorded in the
/// saved items is still recognized by the reloaded index.
pub proof fn lemma_roundtrip_preserves_membership(items: Seq<Seq<u8>>, sanitized: Seq<u8>)
    requires
        items.len() <= u64::MAX,
        forall|k: int| 0 <= k < items.len() ==> (#[trigger] items[k]).len() <= u64::MAX,
        items.to_set().contains(sanitized),
    ensures
        spec_decode(spec_encode(items)) matches Ok(out) && out.to_set().contains(sanitized),
{
    lemma_encode_decode_roundtrip(items);
}

/// A trained line is recognized after a round trip: when an index whose
/// saved items hold the canonical form of a corpus line is written out
/// and read back, the reloaded index still holds that canonical form, so
/// its membership answer for the sanitized line is `true`.
pub proof fn lemma_trained_line_recognized(
    items: Seq<Seq<u8>>,
    pats: Seq<Seq<u8>>,
    ph: Seq<u8>,
    raw_line: Seq<u8>,
)
    requires
        items.len() <= u64::MAX,
        forall|k: int| 0 <= k < items.len() ==> (#[trigger] items[k]).len() <= u64::MAX,
        items.to_set().contains(crate::sanitize::spec_clean(pats, ph, raw_line)),
    ensures
        spec_decode(spec_encode(items)) matches Ok(out) && out.to_set().contains(
            crate::sanitize::spec_clean(pats, ph, raw_line),
        ),
{
    lemma_roundtrip_preserves_membership(items, crate::sanitize::spec_clean(pats, ph, raw_line));
}

} // verus!
