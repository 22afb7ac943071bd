//! The binary blob format and its parser.
//!
//! A blob is one contiguous byte buffer: a 4-byte little-endian entry
//! count, then `count` index records of 8 bytes each (name length, data
//! length, both little-endian 32-bit), then every entry name concatenated
//! in index order, then every payload concatenated in index order. The
//! parser turns a blob into a name-to-payload mapping whose payloads are
//! byte ranges of the blob itself, never copies.

use vstd::prelude::*;
use crate::bytes::{le32_at, read_le_u32, is_utf8, is_valid_utf8};

verus! {

/// Why a blob is rejected as malformed.
#[derive(Clone, Copy, Debug, PartialEq, Eq, Structural)]
pub enum MalformedReason {
    /// The declared entry count leaves no room for the index records.
    IndexTruncated,
    /// The declared name and data lengths reach past the end of the blob.
    DataTruncated,
    /// An entry name is not well-formed UTF-8 text.
    InvalidName,
}

/// Why a blob fails to parse.
#[derive(Clone, Copy, Debug, PartialEq, Eq, Structural)]
pub enum ParseError {
    /// The blob is shorter than the 4-byte header.
    TooSmall,
    /// The header is present but the blob body contradicts it.
    Malformed(MalformedReason),
}

/// The declared number of entries: the little-endian 32-bit integer in the
/// first four bytes.
pub open spec fn blob_count(b: Seq<u8>) -> nat {
    le32_at(b, 0)
}

/// First position after the index records.
pub open spec fn index_end(b: Seq<u8>) -> int {
    4 + 8 * (blob_count(b) as int)
}

/// Declared name length of entry `i`.
pub open spec fn entry_name_len(b: Seq<u8>, i: int) -> nat {
    le32_at(b, 4 + 8 * i)
}

/// Declared payload length of entry `i`.
pub open spec fn entry_data_len(b: Seq<u8>, i: int) -> nat {
    le32_at(b, 8 + 8 * i)
}

/// Sum of the name lengths of entries `0 .. n`.
pub open spec fn total_name_len(b: Seq<u8>, n: int) -> int
    decreases n,
{
    if n <= 0 {
        0
    } else {
        total_name_len(b, n - 1) + entry_name_len(b, n - 1)
    }
}

/// Sum of the payload lengths of entries `0 .. n`.
pub open spec fn total_data_len(b: Seq<u8>, n: int) -> int
    decreases n,
{
    if n <= 0 {
        0
    } else {
        total_data_len(b, n - 1) + entry_data_len(b, n - 1)
    }
}

/// First position of the names section.
pub open spec fn names_start(b: Seq<u8>) -> int {
    index_end(b)
}

/// First position of the values section.
pub open spec fn values_start(b: Seq<u8>) -> int {
    index_end(b) + total_name_len(b, blob_count(b) as int)
}

/// First position after the values section.
pub open spec fn values_end(b: Seq<u8>) -> int {
    values_start(b) + total_data_len(b, blob_count(b) as int)
}

/// Position of entry `i`'s name inside the names section.
pub open spec fn entry_name_off(b: Seq<u8>, i: int) -> int {
    names_start(b) + total_name_len(b, i)
}

/// Position of entry `i`'s payload inside the values section.
pub open spec fn entry_value_off(b: Seq<u8>, i: int) -> int {
    values_start(b) + total_data_len(b, i)
}

/// Name of entry `i`.
pub open spec fn entry_name(b: Seq<u8>, i: int) -> Seq<u8> {
    b.subrange(entry_name_off(b, i), entry_name_off(b, i) + entry_name_len(b, i))
}

/// Payload of entry `i`.
pub open spec fn entry_payload(b: Seq<u8>, i: int) -> Seq<u8> {
    b.subrange(entry_value_off(b, i), entry_value_off(b, i) + entry_data_len(b, i))
}

/// The index records fit inside the blob.
pub open spec fn index_fits(b: Seq<u8>) -> bool {
    index_end(b) <= b.len()
}

/// The names and values sections fit inside the blob.
pub open spec fn sections_fit(b: Seq<u8>) -> bool {
    values_end(b) <= b.len()
}

/// Every entry name is well-formed UTF-8 text.
pub open spec fn names_valid(b: Seq<u8>) -> bool {
    forall|i: int| 0 <= i < blob_count(b) ==> is_utf8(#[trigger] entry_name(b, i))
}

/// The mapping built from entries `0 .. n`, later entries overwriting
/// earlier ones of the same name.
pub open spec fn entries_map_upto(b: Seq<u8>, n: int) -> Map<Seq<u8>, Seq<u8>>
    decreases n,
{
    if n <= 0 {
        Map::empty()
    } else {
        entries_map_upto(b, n - 1).insert(entry_name(b, n - 1), entry_payload(b, n - 1))
    }
}

/// The mapping a well-formed blob denotes.
pub open spec fn blob_map(b: Seq<u8>) -> Map<Seq<u8>, Seq<u8>> {
    entries_map_upto(b, blob_count(b) as int)
}

/// What parsing a blob must yield: the denoted mapping, or the one error
/// the blob's first defect dictates.
pub open spec fn parse_result(b: Seq<u8>) -> Result<Map<Seq<u8>, Seq<u8>>, ParseError> {
    if b.len() < 4 {
        Err(ParseError::TooSmall)
    } else if !index_fits(b) {
        Err(ParseError::Malformed(MalformedReason::IndexTruncated))
    } else if !sections_fit(b) {
        Err(ParseError::Malformed(MalformedReason::DataTruncated))
    } else if !names_valid(b) {
        Err(ParseError::Malformed(MalformedReason::InvalidName))
    } else {
        Ok(blob_map(b))
    }
}

/// A blob that declares zero entries and holds nothing beyond its 4-byte
/// header parses successfully, to the empty mapping.
pub proof fn lemma_empty_blob(b: Seq<u8>)
    requires
        b.len() == 4,
        blob_count(b) == 0,
    ensures
        parse_result(b) == Ok::<Map<Seq<u8>, Seq<u8>>, ParseError>(Map::<Seq<u8>, Seq<u8>>::empty()),
{
}

/// Entry totals are sums of declared lengths, so they are never negative.
pub proof fn lemma_totals_nonneg(b: Seq<u8>, n: int)
    ensures
        0 <= total_name_len(b, n),
        0 <= total_data_len(b, n),
    decreases n,
{
    if n > 0 {
        lemma_totals_nonneg(b, n - 1);
    }
}

/// Entry totals never shrink as more entries are counted.
pub proof fn lemma_totals_mono(b: Seq<u8>, n1: int, n2: int)
    requires
        n1 <= n2,
    ensures
        total_name_len(b, n1) <= total_name_len(b, n2),
        total_data_len(b, n1) <= total_data_len(b, n2),
    decreases n2 - n1,
{
    if n1 < n2 {
        lemma_totals_mono(b, n1, n2 - 1);
    }
}

/// One entry of the lookup structure: an owned copy of the name, and the
/// range of the blob that holds the payload.
#[derive(Debug)]
struct MapEntry {
    name: Vec<u8>,
    offset: usize,
    len: usize,
}

/// The payload range of `e`, read out of `blob`.
spec fn payload_of(e: MapEntry, blob: Seq<u8>) -> Seq<u8> {
    blob.subrange(e.offset as int, e.offset + e.len)
}

/// The mapping the entry list denotes over `blob`: later entries win.
spec fn map_of(entries: Seq<MapEntry>, blob: Seq<u8>) -> Map<Seq<u8>, Seq<u8>>
    decreases entries.len(),
{
    if entries.len() == 0 {
        Map::empty()
    } else {
        map_of(entries.drop_last(), blob).insert(entries.last().name@, payload_of(entries.last(), blob))
    }
}

/// If entry `i` is the last one bearing its name, the mapping sends that
/// name to entry `i`'s payload.
proof fn lemma_map_of_last_match(entries: Seq<MapEntry>, blob: Seq<u8>, i: int)
    requires
        0 <= i < entries.len(),
        forall|j: int| i < j < entries.len() ==> (#[trigger] entries[j]).name@ != entries[i].name@,
    ensures
        map_of(entries, blob).dom().contains(entries[i].name@),
        map_of(entries, blob)[entries[i].name@] == payload_of(entries[i], blob),
    decreases entries.len(),
{
    if i == entries.len() - 1 {
        assert(entries.last() == entries[i]);
    } else {
        let head = entries.drop_last();
        assert(head[i] == entries[i]);
        assert(forall|j: int| i < j < head.len() ==> (#[trigger] head[j]).name@ != head[i].name@);
        lemma_map_of_last_match(head, blob, i);
        assert(entries.last().name@ != entries[i].name@);
    }
}

/// A name no entry bears is outside the mapping.
proof fn lemma_map_of_no_match(entries: Seq<MapEntry>, blob: Seq<u8>, name: Seq<u8>)
    requires
        forall|j: int| 0 <= j < entries.len() ==> (#[trigger] entries[j]).name@ != name,
    ensures
        !map_of(entries, blob).dom().contains(name),
    decreases entries.len(),
{
    if entries.len() > 0 {
        let head = entries.drop_last();
        assert(forall|j: int| 0 <= j < head.len() ==> (#[trigger] head[j]).name@ != name);
        lemma_map_of_no_match(head, blob, name);
    }
}

/// The mapping's domain is exactly the set of entry names.
proof fn lemma_map_of_dom(entries: Seq<MapEntry>, blob: Seq<u8>)
    ensures
        forall|n: Seq<u8>| #[trigger] map_of(entries, blob).dom().contains(n) <==> (exists|i: int|
            0 <= i < entries.len() && (#[trigger] entries[i]).name@ == n),
    decreases entries.len(),
{
    if entries.len() > 0 {
        let head = entries.drop_last();
        lemma_map_of_dom(head, blob);
        assert forall|n: Seq<u8>| #[trigger] map_of(entries, blob).dom().contains(n) implies (
        exists|i: int| 0 <= i < entries.len() && (#[trigger] entries[i]).name@ == n) by {
            if n == entries.last().name@ {
                assert(entries[entries.len() - 1].name@ == n);
            } else {
                assert(map_of(head, blob).dom().contains(n));
                let i = choose|i: int| 0 <= i < head.len() && (#[trigger] head[i]).name@ == n;
                assert(head[i] == entries[i]);
                assert(entries[i].name@ == n);
            }
        }
        assert forall|n: Seq<u8>| (exists|i: int|
            0 <= i < entries.len() && (#[trigger] entries[i]).name@ == n) implies #[trigger] map_of(
            entries,
            blob,
        ).dom().contains(n) by {
            let i = choose|i: int| 0 <= i < entries.len() && (#[trigger] entries[i]).name@ == n;
            if i < entries.len() - 1 {
                assert(head[i] == entries[i]);
                assert(head[i].name@ == n);
                assert(map_of(head, blob).dom().contains(n));
            }
        }
    }
}

/// Compares two byte strings.
pub fn bytes_eq(a: &[u8], b: &[u8]) -> (r: bool)
    ensures
        r == (a@ == b@),
{
    if a.len() != b.len() {
        return false;
    }
    let n = a.len();
    let mut i: usize = 0;
    while i < n
        invariant
            n == a@.len() == b@.len(),
            i <= n,
            forall|j: int| 0 <= j < i ==> a@[j] == b@[j],
        decreases n - i,
    {
        if a[i] != b[i] {
            return false;
        }
        i = i + 1;
    }
    proof {
        assert(a@ =~= b@);
    }
    true
}

/// A name-to-payload mapping over one blob. Payloads are kept as ranges of
/// the blob; looking one up hands back a borrowed view of the blob itself.
#[derive(Debug)]
pub struct ModuleMap {
    entries: Vec<MapEntry>,
}

impl ModuleMap {
    /// Every recorded payload range lies inside `blob`.
    pub closed spec fn wf(&self, blob: Seq<u8>) -> bool {
        forall|i: int| 0 <= i < self.entries@.len() ==> (#[trigger] self.entries@[i]).offset
            + self.entries@[i].len <= blob.len()
    }

    /// The mapping this structure denotes over `blob`.
    pub closed spec fn as_map(&self, blob: Seq<u8>) -> Map<Seq<u8>, Seq<u8>> {
        map_of(self.entries@, blob)
    }

    /// The entry names, in insertion order, duplicates included.
    pub closed spec fn names_seq(&self) -> Seq<Seq<u8>> {
        self.entries@.map_values(|e: MapEntry| e.name@)
    }

    /// A name is in the mapping exactly when some entry bears it.
    pub proof fn lemma_dom_is_names(&self, blob: Seq<u8>)
        ensures
            forall|n: Seq<u8>| #[trigger] self.as_map(blob).dom().contains(n)
                <==> self.names_seq().contains(n),
    {
        lemma_map_of_dom(self.entries@, blob);
        assert forall|n: Seq<u8>| #[trigger] self.as_map(blob).dom().contains(n) implies self
            .names_seq().contains(n) by {
            let i = choose|i: int| 0 <= i < self.entries@.len() && (#[trigger] self.entries@[i]).name@
                == n;
            assert(self.names_seq()[i] == n);
        }
        assert forall|n: Seq<u8>| self.names_seq().contains(n) implies #[trigger] self.as_map(
            blob,
        ).dom().contains(n) by {
            let i = choose|i: int| 0 <= i < self.names_seq().len() && self.names_seq()[i] == n;
            assert(self.entries@[i].name@ == n);
        }
    }

    /// An empty mapping, valid over any blob.
    pub fn new() -> (r: Self)
        ensures
            r.names_seq() == Seq::<Seq<u8>>::empty(),
            forall|blob: Seq<u8>| #[trigger] r.wf(blob),
            forall|blob: Seq<u8>| #[trigger] r.as_map(blob) == Map::<Seq<u8>, Seq<u8>>::empty(),
    {
        let r = ModuleMap { entries: Vec::new() };
        proof {
            assert(r.names_seq() =~= Seq::<Seq<u8>>::empty());
        }
        r
    }

    /// Records `name` with the payload `blob[offset .. offset + len]`,
    /// overwriting any earlier entry of the same name.
    pub fn insert(&mut self, name: Vec<u8>, offset: usize, len: usize, blob: Ghost<Seq<u8>>)
        requires
            old(self).wf(blob@),
            offset + len <= blob@.len(),
        ensures
            final(self).wf(blob@),
            final(self).as_map(blob@) == old(self).as_map(blob@).insert(
                name@,
                blob@.subrange(offset as int, offset + len),
            ),
            final(self).names_seq() == old(self).names_seq().push(name@),
    {
        let ghost old_entries = self.entries@;
        let e = MapEntry { name, offset, len };
        let ghost new_entry = e;
        self.entries.push(e);
        proof {
            assert(self.entries@.drop_last() =~= old_entries);
            assert(self.entries@.last() == new_entry);
            assert(self.names_seq() =~= old(self).names_seq().push(new_entry.name@));
        }
    }

    /// Number of recorded entries.
    pub fn entry_count(&self) -> (n: usize)
        ensures
            n as int == self.names_seq().len(),
    {
        self.entries.len()
    }

    /// Name of the entry recorded `i`-th.
    pub fn entry_name(&self, i: usize) -> (r: &Vec<u8>)
        requires
            (i as int) < self.names_seq().len(),
        ensures
            r@ == self.names_seq()[i as int],
    {
        &self.entries[i].name
    }

    /// Looks `name` up and hands back its payload as a borrowed view of
    /// `blob`, or `None` if the name is absent.
    pub fn get<'a>(&self, blob: &'a [u8], name: &[u8]) -> (r: Option<&'a [u8]>)
        requires
            self.wf(blob@),
        ensures
            match r {
                Some(v) => self.as_map(blob@).dom().contains(name@) && v@ == self.as_map(blob@)[name@],
                None => !self.as_map(blob@).dom().contains(name@),
            },
    {
        let blob_len = blob.len();
        let mut idx = self.entries.len();
        while idx > 0
            invariant
                self.wf(blob@),
                blob_len == blob@.len(),
                idx <= self.entries@.len(),
                forall|j: int| idx <= j < self.entries@.len() ==> (#[trigger] self.entries@[j]).name@
                    != name@,
            decreases idx,
        {
            idx = idx - 1;
            if bytes_eq(self.entries[idx].name.as_slice(), name) {
                proof {
                    lemma_map_of_last_match(self.entries@, blob@, idx as int);
                    assert(self.entries@[idx as int].offset + self.entries@[idx as int].len
                        <= blob@.len());
                }
                let e = &self.entries[idx];
                assert(*e == self.entries@[idx as int]);
                return Some(vstd::slice::slice_subrange(blob, e.offset, e.offset + e.len));
            }
        }
        proof {
            lemma_map_of_no_match(self.entries@, blob@, name@);
        }
        None
    }
}

/// Parses one blob into a name-to-payload mapping: exactly the mapping the
/// blob denotes, or the error its first defect dictates.
pub fn parse_modules_blob(data: &[u8]) -> (r: Result<ModuleMap, ParseError>)
    ensures
        match r {
            Ok(m) => {
                &&& m.wf(data@)
                &&& parse_result(data@) == Ok::<Map<Seq<u8>, Seq<u8>>, ParseError>(m.as_map(data@))
            },
            Err(e) => parse_result(data@) == Err::<Map<Seq<u8>, Seq<u8>>, ParseError>(e),
        },
{
    let n = data.len();
    if n < 4 {
        return Err(ParseError::TooSmall);
    }
    let count = read_le_u32(data, 0) as usize;
    assert(count == blob_count(data@));
    if count > (n - 4) / 8 {
        proof {
            assert(8 * count >= 8 * ((n - 4) / 8 + 1) > n - 4) by (nonlinear_arith)
                requires
                    count > (n - 4) / 8,
                    n >= 4,
            ;
        }
        return Err(ParseError::Malformed(MalformedReason::IndexTruncated));
    }
    proof {
        assert(8 * count <= 8 * ((n - 4) / 8) <= n - 4) by (nonlinear_arith)
            requires
                count <= (n - 4) / 8,
                n >= 4,
        ;
    }
    assert(index_fits(data@));

    let mut total_names: usize = 0;
    let mut total_values: usize = 0;
    let mut i: usize = 0;
    while i < count
        invariant
            n == data@.len(),
            n >= 4,
            count == blob_count(data@),
            4 + 8 * count <= n,
            i <= count,
            total_names as int == total_name_len(data@, i as int),
            total_values as int == total_data_len(data@, i as int),
        decreases count - i,
    {
        let nl = read_le_u32(data, 4 + 8 * i) as usize;
        let dl = read_le_u32(data, 8 + 8 * i) as usize;
        total_names = match total_names.checked_add(nl) {
            Some(t) => t,
            None => {
                proof {
                    lemma_totals_mono(data@, i + 1, count as int);
                    lemma_totals_nonneg(data@, count as int);
                }
                return Err(ParseError::Malformed(MalformedReason::DataTruncated));
            },
        };
        total_values = match total_values.checked_add(dl) {
            Some(t) => t,
            None => {
                proof {
                    lemma_totals_mono(data@, i + 1, count as int);
                    lemma_totals_nonneg(data@, count as int);
                }
                return Err(ParseError::Malformed(MalformedReason::DataTruncated));
            },
        };
        i = i + 1;
    }

    let nstart = 4 + 8 * count;
    let vstart = match nstart.checked_add(total_names) {
        Some(t) => t,
        None => {
            proof {
                lemma_totals_nonneg(data@, count as int);
            }
            return Err(ParseError::Malformed(MalformedReason::DataTruncated));
        },
    };
    let vend = match vstart.checked_add(total_values) {
        Some(t) => t,
        None => {
            return Err(ParseError::Malformed(MalformedReason::DataTruncated));
        },
    };
    if vend > n {
        return Err(ParseError::Malformed(MalformedReason::DataTruncated));
    }
    assert(vstart == values_start(data@));
    assert(sections_fit(data@));

    let mut modules = ModuleMap::new();
    let mut name_cursor = nstart;
    let mut value_cursor = vstart;
    let mut i2: usize = 0;
    while i2 < count
        invariant
            n == data@.len(),
            n >= 4,
            count == blob_count(data@),
            4 + 8 * count <= n,
            sections_fit(data@),
            i2 <= count,
            name_cursor as int == names_start(data@) + total_name_len(data@, i2 as int),
            value_cursor as int == values_start(data@) + total_data_len(data@, i2 as int),
            modules.wf(data@),
            modules.as_map(data@) == entries_map_upto(data@, i2 as int),
            forall|k: int| 0 <= k < i2 ==> is_utf8(#[trigger] entry_name(data@, k)),
        decreases count - i2,
    {
        let nl = read_le_u32(data, 4 + 8 * i2) as usize;
        let dl = read_le_u32(data, 8 + 8 * i2) as usize;
        proof {
            lemma_totals_mono(data@, i2 + 1, count as int);
            lemma_totals_mono(data@, 0, i2 as int);
        }
        let name_slice = vstd::slice::slice_subrange(data, name_cursor, name_cursor + nl);
        assert(name_slice@ == entry_name(data@, i2 as int));
        if !is_valid_utf8(name_slice) {
            return Err(ParseError::Malformed(MalformedReason::InvalidName));
        }
        let name_vec = vstd::slice::slice_to_vec(name_slice);
        modules.insert(name_vec, value_cursor, dl, Ghost(data@));
        assert(modules.as_map(data@) == entries_map_upto(data@, i2 + 1));
        name_cursor = name_cursor + nl;
        value_cursor = value_cursor + dl;
        i2 = i2 + 1;
    }
    assert(names_valid(data@));
    Ok(modules)
}

} // verus!
