//! Column resolution: which canonical tenors a year's CSV carries.
use crate::error::TreasuryCurveError;
use crate::labels::{label_index, search_labels};
use vstd::prelude::*;

verus! {

/// Whether the mask marks canonical slot `j` as present.
pub open spec fn slot_present(flags: u16, j: int) -> bool {
    0 <= j < 16 && (flags >> (j as u16)) & 1u16 == 1u16
}

/// The mask of the header labels `labels`, all of them known tenors.
pub open spec fn flags_of(labels: Seq<Seq<char>>) -> u16
    decreases labels.len(),
{
    if labels.len() == 0 {
        0u16
    } else {
        let rest = flags_of(labels.drop_last());
        match label_index(labels.last()) {
            Some(i) => rest | (1u16 << (i as u16)),
            None => rest,
        }
    }
}

/// The first of `labels` that is not a known tenor, if any.
pub open spec fn first_unknown(labels: Seq<Seq<char>>) -> Option<int>
    decreases labels.len(),
{
    if labels.len() == 0 {
        None
    } else {
        match first_unknown(labels.drop_last()) {
            Some(k) => Some(k),
            None => if label_index(labels.last()).is_none() {
                Some(labels.len() - 1)
            } else {
                None
            },
        }
    }
}

/// Number of present slots below `j`: where the value of slot `j` sits
/// among the row's values.
pub open spec fn rank(flags: u16, j: int) -> int
    decreases j,
{
    if j <= 0 {
        0
    } else {
        rank(flags, j - 1) + if slot_present(flags, j - 1) {
            1int
        } else {
            0int
        }
    }
}

/// Number of present canonical slots.
pub open spec fn present_count(flags: u16) -> int {
    rank(flags, 13)
}

proof fn lemma_set_bit(f: u16, i: u16, j: u16)
    requires
        i < 16,
        j < 16,
    ensures
        ((f | (1u16 << i)) >> j) & 1u16 == 1u16 <==> (((f >> j) & 1u16 == 1u16) || i == j),
{
    assert(((f | (1u16 << i)) >> j) & 1u16 == 1u16 <==> (((f >> j) & 1u16 == 1u16) || i == j))
        by (bit_vector)
        requires
            i < 16,
            j < 16,
    ;
}

proof fn lemma_zero_bits(j: u16)
    ensures
        (0u16 >> j) & 1u16 == 0u16,
{
    assert((0u16 >> j) & 1u16 == 0u16) by (bit_vector);
}

/// A mask built from known labels marks exactly the slots that they name,
/// and none at or above the thirteenth.
pub proof fn lemma_flags_of(labels: Seq<Seq<char>>, j: int)
    requires
        0 <= j < 16,
    ensures
        slot_present(flags_of(labels), j) <==> exists|k: int|
            0 <= k < labels.len() && #[trigger] label_index(labels[k]) == Some(j),
    decreases labels.len(),
{
    if labels.len() == 0 {
        lemma_zero_bits(j as u16);
    } else {
        let init = labels.drop_last();
        lemma_flags_of(init, j);
        if slot_present(flags_of(init), j) {
            let k = choose|k: int| 0 <= k < init.len() && #[trigger] label_index(init[k]) == Some(j);
            assert(labels[k] == init[k]);
        }
        match label_index(labels.last()) {
            Some(i) => {
                lemma_label_index_range(labels.last(), 0);
                lemma_set_bit(flags_of(init), i as u16, j as u16);
                if i == j {
                    assert(label_index(labels[labels.len() - 1]) == Some(j));
                }
            },
            None => {},
        }
        if exists|k: int| 0 <= k < labels.len() && #[trigger] label_index(labels[k]) == Some(j) {
            let k = choose|k: int| 0 <= k < labels.len() && #[trigger] label_index(labels[k]) == Some(j);
            if k < init.len() {
                assert(init[k] == labels[k]);
            }
        }
    }
}

proof fn lemma_label_index_range(s: Seq<char>, from: int)
    requires
        0 <= from,
    ensures
        crate::labels::label_index_from(s, from) is Some ==> from <= crate::labels::label_index_from(s, from)->0 < 13,
    decreases 13 - from,
{
    if from < 13 {
        lemma_label_index_range(s, from + 1);
    }
}

/// A known label's position is a canonical slot.
pub proof fn lemma_label_index_bound(s: Seq<char>)
    ensures
        label_index(s) is Some ==> 0 <= label_index(s)->0 < 13,
{
    lemma_label_index_range(s, 0);
}

/// The tenor labels of a header row: every field after the date column.
pub open spec fn header_labels(fields: Seq<Seq<char>>) -> Seq<Seq<char>> {
    if fields.len() == 0 {
        fields
    } else {
        fields.drop_first()
    }
}

/// Whether `r` is what resolving the tenor labels `labels` gives: the mask of
/// their slots, or `MissingLabel` with the first label that is not a tenor.
pub open spec fn resolves_to(labels: Seq<Seq<char>>, r: Result<u16, TreasuryCurveError>) -> bool {
    match r {
        Ok(f) => first_unknown(labels).is_none() && f == flags_of(labels),
        Err(TreasuryCurveError::MissingLabel(s)) => first_unknown(labels).is_some() && s@
            == labels[first_unknown(labels)->0],
        Err(_) => false,
    }
}

proof fn lemma_first_unknown_prefix(s: Seq<Seq<char>>, m: int)
    requires
        0 <= m <= s.len(),
        first_unknown(s.subrange(0, m)).is_some(),
    ensures
        first_unknown(s) == first_unknown(s.subrange(0, m)),
    decreases s.len() - m,
{
    if m < s.len() {
        let p = s.subrange(0, m + 1);
        assert(p.drop_last() =~= s.subrange(0, m));
        assert(p.subrange(0, m) =~= s.subrange(0, m));
        lemma_first_unknown_prefix(s, m + 1);
    } else {
        assert(s.subrange(0, m) =~= s);
    }
}

/// Resolves a header row (its first field, the date column, is skipped) into
/// the mask of canonical tenors present; fails on the first unknown label.
pub fn active_flags(headers: &[&str]) -> (r: Result<u16, TreasuryCurveError>)
    ensures
        resolves_to(header_labels(headers@.map_values(|h: &str| h@)), r),
{
    let mut flags: u16 = 0;
    let n = headers.len();
    let ghost labels = header_labels(headers@.map_values(|h: &str| h@));
    if n == 0 {
        return Ok(0);
    }
    let mut k: usize = 1;
    while k < n
        invariant
            1 <= k <= n,
            n == headers@.len(),
            labels == headers@.map_values(|h: &str| h@).drop_first(),
            first_unknown(labels.subrange(0, k - 1)).is_none(),
            flags == flags_of(labels.subrange(0, k - 1)),
        decreases n - k,
    {
        let h = headers[k];
        let ghost pre = labels.subrange(0, k - 1);
        let ghost next = labels.subrange(0, k as int);
        assert(next.drop_last() =~= pre);
        assert(next.last() == h@);
        proof {
            lemma_label_index_bound(h@);
        }
        match search_labels(h) {
            Some(i) => {
                flags = flags | (1u16 << (i as u16));
            },
            None => {
                assert(first_unknown(next) == Some(k - 1));
                proof {
                    lemma_first_unknown_prefix(labels, k as int);
                }
                return Err(TreasuryCurveError::MissingLabel(h.to_owned()));
            },
        }
        k = k + 1;
    }
    assert(labels.subrange(0, n - 1) =~= labels);
    Ok(flags)
}

/// A header with a label that is no tenor never resolves: resolution fails
/// exactly when some label is unknown, and the label it reports is unknown.
pub proof fn lemma_unknown_label_fails(labels: Seq<Seq<char>>)
    ensures
        first_unknown(labels).is_some() <==> exists|k: int|
            0 <= k < labels.len() && (#[trigger] label_index(labels[k])).is_none(),
        first_unknown(labels) matches Some(k) ==> 0 <= k < labels.len() && label_index(
            labels[k],
        ).is_none(),
    decreases labels.len(),
{
    if labels.len() > 0 {
        let init = labels.drop_last();
        lemma_unknown_label_fails(init);
        if exists|k: int| 0 <= k < init.len() && (#[trigger] label_index(init[k])).is_none() {
            let k = choose|k: int| 0 <= k < init.len() && (#[trigger] label_index(init[k])).is_none();
            assert(labels[k] == init[k]);
        }
        if exists|k: int| 0 <= k < labels.len() && (#[trigger] label_index(labels[k])).is_none() {
            let k = choose|k: int| 0 <= k < labels.len() && (#[trigger] label_index(labels[k])).is_none();
            if k < init.len() {
                assert(init[k] == labels[k]);
            }
        }
        match first_unknown(init) {
            Some(k) => {
                assert(labels[k] == init[k]);
            },
            None => {},
        }
    }
}

} // verus!
