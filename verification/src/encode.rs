//! Encoding entries into a blob, and the round trip through the parser.
//!
//! The build step that produces blobs lives outside this crate; what is
//! stated here is its contract: a blob laid out as the format prescribes
//! parses back to exactly the entries it encodes.

use vstd::prelude::*;
use crate::bytes::{le32_at, le32_bytes, lemma_le32_at_window, lemma_le32_round_trip, is_utf8};
use crate::blob::{
    ParseError, parse_result, blob_map, blob_count, entry_name_len, entry_data_len, total_name_len,
    total_data_len, entry_name, entry_payload, entry_name_off, entry_value_off, values_end,
    index_fits, sections_fit, names_valid, entries_map_upto,
};

verus! {

broadcast use vstd::set::group_set_axioms;

/// The index section: one 8-byte record per entry, name length then data
/// length, in entry order.
pub open spec fn encode_index(entries: Seq<(Seq<u8>, Seq<u8>)>) -> Seq<u8>
    decreases entries.len(),
{
    if entries.len() == 0 {
        Seq::empty()
    } else {
        encode_index(entries.drop_last()) + le32_bytes(entries.last().0.len()) + le32_bytes(
            entries.last().1.len(),
        )
    }
}

/// The names section: every entry name concatenated in entry order.
pub open spec fn concat_names(entries: Seq<(Seq<u8>, Seq<u8>)>) -> Seq<u8>
    decreases entries.len(),
{
    if entries.len() == 0 {
        Seq::empty()
    } else {
        concat_names(entries.drop_last()) + entries.last().0
    }
}

/// The values section: every payload concatenated in entry order.
pub open spec fn concat_values(entries: Seq<(Seq<u8>, Seq<u8>)>) -> Seq<u8>
    decreases entries.len(),
{
    if entries.len() == 0 {
        Seq::empty()
    } else {
        concat_values(entries.drop_last()) + entries.last().1
    }
}

/// A whole blob: count, index, names, values.
pub open spec fn encode_blob(entries: Seq<(Seq<u8>, Seq<u8>)>) -> Seq<u8> {
    le32_bytes(entries.len()) + encode_index(entries) + concat_names(entries) + concat_values(
        entries,
    )
}

/// Sum of the name lengths of entries `0 .. n`.
pub open spec fn sum_name_lens(entries: Seq<(Seq<u8>, Seq<u8>)>, n: int) -> int
    decreases n,
{
    if n <= 0 {
        0
    } else {
        sum_name_lens(entries, n - 1) + entries[n - 1].0.len()
    }
}

/// Sum of the payload lengths of entries `0 .. n`.
pub open spec fn sum_data_lens(entries: Seq<(Seq<u8>, Seq<u8>)>, n: int) -> int
    decreases n,
{
    if n <= 0 {
        0
    } else {
        sum_data_lens(entries, n - 1) + entries[n - 1].1.len()
    }
}

proof fn lemma_sums_nonneg(entries: Seq<(Seq<u8>, Seq<u8>)>, n: int)
    ensures
        0 <= sum_name_lens(entries, n),
        0 <= sum_data_lens(entries, n),
    decreases n,
{
    if n > 0 {
        lemma_sums_nonneg(entries, n - 1);
    }
}

/// The sums read only the first `n` entries, so dropping the last entry
/// does not change them.
proof fn lemma_sums_drop_last(entries: Seq<(Seq<u8>, Seq<u8>)>, n: int)
    requires
        0 <= n < entries.len(),
    ensures
        sum_name_lens(entries.drop_last(), n) == sum_name_lens(entries, n),
        sum_data_lens(entries.drop_last(), n) == sum_data_lens(entries, n),
    decreases n,
{
    if n > 0 {
        lemma_sums_drop_last(entries, n - 1);
        assert(entries.drop_last()[n - 1] == entries[n - 1]);
    }
}

/// Lengths of the three encoded sections.
proof fn lemma_encode_lens(entries: Seq<(Seq<u8>, Seq<u8>)>)
    ensures
        encode_index(entries).len() == 8 * entries.len(),
        concat_names(entries).len() == sum_name_lens(entries, entries.len() as int),
        concat_values(entries).len() == sum_data_lens(entries, entries.len() as int),
    decreases entries.len(),
{
    if entries.len() > 0 {
        lemma_encode_lens(entries.drop_last());
        lemma_sums_drop_last(entries, entries.len() - 1);
    }
}

/// The 8-byte index record of entry `i` holds its two encoded lengths.
proof fn lemma_index_bytes(entries: Seq<(Seq<u8>, Seq<u8>)>, i: int)
    requires
        0 <= i < entries.len(),
    ensures
        encode_index(entries).subrange(8 * i, 8 * i + 4) == le32_bytes(entries[i].0.len()),
        encode_index(entries).subrange(8 * i + 4, 8 * i + 8) == le32_bytes(entries[i].1.len()),
    decreases entries.len(),
{
    lemma_encode_lens(entries);
    lemma_encode_lens(entries.drop_last());
    if i == entries.len() - 1 {
        assert(encode_index(entries).subrange(8 * i, 8 * i + 4) =~= le32_bytes(
            entries[i].0.len(),
        ));
        assert(encode_index(entries).subrange(8 * i + 4, 8 * i + 8) =~= le32_bytes(
            entries[i].1.len(),
        ));
    } else {
        lemma_index_bytes(entries.drop_last(), i);
        assert(entries.drop_last()[i] == entries[i]);
        assert(encode_index(entries).subrange(8 * i, 8 * i + 4) =~= encode_index(
            entries.drop_last(),
        ).subrange(8 * i, 8 * i + 4));
        assert(encode_index(entries).subrange(8 * i + 4, 8 * i + 8) =~= encode_index(
            entries.drop_last(),
        ).subrange(8 * i + 4, 8 * i + 8));
    }
}

/// Entry `i`'s name and payload lie at their summed offsets of the names
/// and values sections.
#[verifier::rlimit(50)]
proof fn lemma_section_bytes(entries: Seq<(Seq<u8>, Seq<u8>)>, i: int)
    requires
        0 <= i < entries.len(),
    ensures
        concat_names(entries).subrange(sum_name_lens(entries, i), sum_name_lens(entries, i + 1))
            == entries[i].0,
        concat_values(entries).subrange(sum_data_lens(entries, i), sum_data_lens(entries, i + 1))
            == entries[i].1,
    decreases entries.len(),
{
    lemma_encode_lens(entries);
    lemma_encode_lens(entries.drop_last());
    lemma_sums_nonneg(entries, i);
    if i == entries.len() - 1 {
        if i > 0 {
            lemma_sums_drop_last(entries, i);
        }
        assert(concat_names(entries).subrange(
            sum_name_lens(entries, i),
            sum_name_lens(entries, i + 1),
        ) =~= entries[i].0);
        assert(concat_values(entries).subrange(
            sum_data_lens(entries, i),
            sum_data_lens(entries, i + 1),
        ) =~= entries[i].1);
    } else {
        lemma_section_bytes(entries.drop_last(), i);
        assert(entries.drop_last()[i] == entries[i]);
        lemma_sums_drop_last(entries, i);
        lemma_sums_drop_last(entries, i + 1);
        lemma_sums_drop_last(entries, entries.len() - 1);
        lemma_sums_nonneg(entries.drop_last(), i);
        lemma_sums_nonneg(entries, i + 1);
        lemma_sums_mono(entries, i + 1, entries.len() - 1);
        assert(concat_names(entries).subrange(
            sum_name_lens(entries, i),
            sum_name_lens(entries, i + 1),
        ) =~= concat_names(entries.drop_last()).subrange(
            sum_name_lens(entries.drop_last(), i),
            sum_name_lens(entries.drop_last(), i + 1),
        ));
        assert(concat_values(entries).subrange(
            sum_data_lens(entries, i),
            sum_data_lens(entries, i + 1),
        ) =~= concat_values(entries.drop_last()).subrange(
            sum_data_lens(entries.drop_last(), i),
            sum_data_lens(entries.drop_last(), i + 1),
        ));
    }
}

proof fn lemma_sums_mono(entries: Seq<(Seq<u8>, Seq<u8>)>, n1: int, n2: int)
    requires
        n1 <= n2,
    ensures
        sum_name_lens(entries, n1) <= sum_name_lens(entries, n2),
        sum_data_lens(entries, n1) <= sum_data_lens(entries, n2),
    decreases n2 - n1,
{
    if n1 < n2 {
        lemma_sums_mono(entries, n1, n2 - 1);
    }
}

/// Once each entry's declared lengths match, the blob's running totals
/// match the encoded sums.
proof fn lemma_totals_match(b: Seq<u8>, entries: Seq<(Seq<u8>, Seq<u8>)>, k: int)
    requires
        0 <= k <= entries.len(),
        forall|i: int| 0 <= i < k ==> entry_name_len(b, i) == (#[trigger] entries[i]).0.len(),
        forall|i: int| 0 <= i < k ==> entry_data_len(b, i) == (#[trigger] entries[i]).1.len(),
    ensures
        total_name_len(b, k) == sum_name_lens(entries, k),
        total_data_len(b, k) == sum_data_lens(entries, k),
    decreases k,
{
    if k > 0 {
        lemma_totals_match(b, entries, k - 1);
    }
}

/// Once each entry's decoded name and payload match the encoded ones, the
/// mapping of the first `k` entries sends every name to its payload, and
/// its domain has exactly `k` members.
proof fn lemma_map_pairs(b: Seq<u8>, entries: Seq<(Seq<u8>, Seq<u8>)>, k: int)
    requires
        0 <= k <= entries.len(),
        forall|i: int| 0 <= i < k ==> entry_name(b, i) == (#[trigger] entries[i]).0,
        forall|i: int| 0 <= i < k ==> entry_payload(b, i) == (#[trigger] entries[i]).1,
        forall|i: int, j: int| 0 <= i < j < entries.len() ==> (#[trigger] entries[i]).0 != (
        #[trigger] entries[j]).0,
    ensures
        forall|i: int| 0 <= i < k ==> entries_map_upto(b, k).dom().contains(
            (#[trigger] entries[i]).0,
        ) && entries_map_upto(b, k)[entries[i].0] == entries[i].1,
        forall|n: Seq<u8>| #[trigger] entries_map_upto(b, k).dom().contains(n) ==> exists|i: int|
            0 <= i < k && (#[trigger] entries[i]).0 == n,
        entries_map_upto(b, k).dom().finite(),
        entries_map_upto(b, k).dom().len() == k,
    decreases k,
{
    if k > 0 {
        lemma_map_pairs(b, entries, k - 1);
        let prev = entries_map_upto(b, k - 1);
        let cur = entries_map_upto(b, k);
        assert(cur == prev.insert(entry_name(b, k - 1), entry_payload(b, k - 1)));
        assert(!prev.dom().contains(entries[k - 1].0)) by {
            if prev.dom().contains(entries[k - 1].0) {
                let i = choose|i: int| 0 <= i < k - 1 && (#[trigger] entries[i]).0 == entries[k
                    - 1].0;
                assert(false);
            }
        }
        assert(cur.dom().len() == k);
        assert forall|n: Seq<u8>| #[trigger] cur.dom().contains(n) implies exists|i: int|
            0 <= i < k && (#[trigger] entries[i]).0 == n by {
            if n == entries[k - 1].0 {
                assert(entries[k - 1].0 == n);
            } else {
                let i = choose|i: int| 0 <= i < k - 1 && (#[trigger] entries[i]).0 == n;
                assert(entries[i].0 == n);
            }
        }
    } else {
        assert(entries_map_upto(b, 0).dom() =~= Set::<Seq<u8>>::empty());
    }
}

/// Round trip: a blob encoding entries with distinct, well-formed names
/// parses back to a mapping holding exactly those entries — each name maps
/// to its own payload, and nothing else is in the mapping — whatever order
/// the entries were encoded in.
#[verifier::rlimit(50)]
pub proof fn lemma_round_trip(entries: Seq<(Seq<u8>, Seq<u8>)>)
    requires
        entries.len() < 0x100000000,
        forall|i: int| 0 <= i < entries.len() ==> (#[trigger] entries[i]).0.len() < 0x100000000,
        forall|i: int| 0 <= i < entries.len() ==> (#[trigger] entries[i]).1.len() < 0x100000000,
        forall|i: int| 0 <= i < entries.len() ==> is_utf8((#[trigger] entries[i]).0),
        forall|i: int, j: int| 0 <= i < j < entries.len() ==> (#[trigger] entries[i]).0 != (
        #[trigger] entries[j]).0,
    ensures
        ({
            let m = blob_map(encode_blob(entries));
            &&& parse_result(encode_blob(entries)) == Ok::<Map<Seq<u8>, Seq<u8>>, ParseError>(m)
            &&& m.dom().len() == entries.len()
            &&& forall|i: int| 0 <= i < entries.len() ==> m.dom().contains(
                (#[trigger] entries[i]).0,
            ) && m[entries[i].0] == entries[i].1
        }),
{
    let b = encode_blob(entries);
    let n = entries.len() as int;
    lemma_encode_lens(entries);
    lemma_sums_nonneg(entries, n);
    assert(b.len() == 4 + 8 * n + sum_name_lens(entries, n) + sum_data_lens(entries, n));

    // The count field decodes to the number of entries.
    assert(b.subrange(0, 4) =~= le32_bytes(entries.len()));
    lemma_le32_at_window(b, 0, b.subrange(0, 4));
    lemma_le32_round_trip(entries.len());
    assert(blob_count(b) == n);

    // Each index record decodes to the entry's two lengths.
    assert forall|i: int| 0 <= i < n implies entry_name_len(b, i) == (#[trigger] entries[i]).0.len()
        && entry_data_len(b, i) == entries[i].1.len() by {
        lemma_index_bytes(entries, i);
        assert(b.subrange(4 + 8 * i, 4 + 8 * i + 4) =~= encode_index(entries).subrange(
            8 * i,
            8 * i + 4,
        ));
        lemma_le32_at_window(b, 4 + 8 * i, b.subrange(4 + 8 * i, 4 + 8 * i + 4));
        lemma_le32_round_trip(entries[i].0.len());
        assert(b.subrange(8 + 8 * i, 8 + 8 * i + 4) =~= encode_index(entries).subrange(
            8 * i + 4,
            8 * i + 8,
        ));
        lemma_le32_at_window(b, 8 + 8 * i, b.subrange(8 + 8 * i, 8 + 8 * i + 4));
        lemma_le32_round_trip(entries[i].1.len());
    }

    // So the running totals and section boundaries match the encoding.
    lemma_totals_match(b, entries, n);
    assert(index_fits(b));
    assert(values_end(b) == b.len());
    assert(sections_fit(b));

    // Each entry decodes to its own name and payload.
    assert forall|i: int| 0 <= i < n implies entry_name(b, i) == (#[trigger] entries[i]).0
        && entry_payload(b, i) == entries[i].1 by {
        lemma_totals_match(b, entries, i);
        lemma_totals_match(b, entries, i + 1);
        lemma_sums_nonneg(entries, i);
        lemma_sums_mono(entries, i + 1, n);
        lemma_section_bytes(entries, i);
        assert(entry_name_off(b, i) == 4 + 8 * n + sum_name_lens(entries, i));
        assert(entry_name(b, i) =~= concat_names(entries).subrange(
            sum_name_lens(entries, i),
            sum_name_lens(entries, i + 1),
        ));
        assert(entry_value_off(b, i) == 4 + 8 * n + sum_name_lens(entries, n) + sum_data_lens(
            entries,
            i,
        ));
        assert(entry_payload(b, i) =~= concat_values(entries).subrange(
            sum_data_lens(entries, i),
            sum_data_lens(entries, i + 1),
        ));
    }

    assert forall|i: int| 0 <= i < blob_count(b) implies is_utf8(#[trigger] entry_name(b, i)) by {
        assert(entry_name(b, i) == entries[i].0);
        assert(is_utf8(entries[i].0));
    }
    assert(names_valid(b));
    assert(parse_result(b) == Ok::<Map<Seq<u8>, Seq<u8>>, ParseError>(blob_map(b)));

    lemma_map_pairs(b, entries, n);
}

} // verus!
