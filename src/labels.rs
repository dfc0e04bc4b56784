//! The thirteen canonical tenors, in the order that every curve stores them.
use vstd::prelude::*;

verus! {

/// Number of canonical tenors.
pub const CURVE_LENGTH: usize = 13;

/// The label of tenor `i` in the published CSV header.
pub open spec fn label_text(i: int) -> Seq<char> {
    if i == 0 {
        "1 Mo"@
    } else if i == 1 {
        "2 Mo"@
    } else if i == 2 {
        "3 Mo"@
    } else if i == 3 {
        "4 Mo"@
    } else if i == 4 {
        "6 Mo"@
    } else if i == 5 {
        "1 Yr"@
    } else if i == 6 {
        "2 Yr"@
    } else if i == 7 {
        "3 Yr"@
    } else if i == 8 {
        "5 Yr"@
    } else if i == 9 {
        "7 Yr"@
    } else if i == 10 {
        "10 Yr"@
    } else if i == 11 {
        "20 Yr"@
    } else {
        "30 Yr"@
    }
}

/// The first tenor at or after `i` whose label is `s`.
pub open spec fn label_index_from(s: Seq<char>, i: int) -> Option<int>
    decreases 13 - i,
{
    if i >= 13 || i < 0 {
        None
    } else if label_text(i) == s {
        Some(i)
    } else {
        label_index_from(s, i + 1)
    }
}

/// The canonical position of the tenor labelled `s`, if `s` is a label.
pub open spec fn label_index(s: Seq<char>) -> Option<int> {
    label_index_from(s, 0)
}

/// The label of tenor `i`.
pub fn label_name(i: usize) -> (r: &'static str)
    requires
        i < CURVE_LENGTH,
    ensures
        r@ == label_text(i as int),
{
    if i == 0 {
        "1 Mo"
    } else if i == 1 {
        "2 Mo"
    } else if i == 2 {
        "3 Mo"
    } else if i == 3 {
        "4 Mo"
    } else if i == 4 {
        "6 Mo"
    } else if i == 5 {
        "1 Yr"
    } else if i == 6 {
        "2 Yr"
    } else if i == 7 {
        "3 Yr"
    } else if i == 8 {
        "5 Yr"
    } else if i == 9 {
        "7 Yr"
    } else if i == 10 {
        "10 Yr"
    } else if i == 11 {
        "20 Yr"
    } else {
        "30 Yr"
    }
}

/// Whether two strings hold the same characters.
pub fn same_text(a: &str, b: &str) -> (r: bool)
    ensures
        r == (a@ == b@),
{
    let n = a.unicode_len();
    if n != b.unicode_len() {
        return false;
    }
    let mut i: usize = 0;
    while i < n
        invariant
            n == a@.len() == b@.len(),
            i <= n,
            forall|k: int| 0 <= k < i ==> a@[k] == b@[k],
        decreases n - i,
    {
        if a.get_char(i) != b.get_char(i) {
            return false;
        }
        i = i + 1;
    }
    assert(a@ =~= b@);
    true
}

/// The canonical position of the tenor labelled `label`.
pub fn search_labels(label: &str) -> (r: Option<usize>)
    ensures
        r.is_some() == label_index(label@).is_some(),
        r.is_some() ==> r.unwrap() as int == label_index(label@).unwrap(),
{
    let mut i: usize = 0;
    while i < CURVE_LENGTH
        invariant
            i <= CURVE_LENGTH,
            label_index(label@) == label_index_from(label@, i as int),
        decreases CURVE_LENGTH - i,
    {
        if same_text(label, label_name(i)) {
            return Some(i);
        }
        i = i + 1;
    }
    None
}

/// Each tenor's label is its own: the label of `i` leads back to `i`.
pub proof fn lemma_label_round_trip(i: int)
    requires
        0 <= i < 13,
    ensures
        label_index(label_text(i)) == Some(i),
{
    reveal_strlit("1 Mo");
    reveal_strlit("2 Mo");
    reveal_strlit("3 Mo");
    reveal_strlit("4 Mo");
    reveal_strlit("6 Mo");
    reveal_strlit("1 Yr");
    reveal_strlit("2 Yr");
    reveal_strlit("3 Yr");
    reveal_strlit("5 Yr");
    reveal_strlit("7 Yr");
    reveal_strlit("10 Yr");
    reveal_strlit("20 Yr");
    reveal_strlit("30 Yr");
    assert forall|k: int| 0 <= k < 13 && k != i implies label_text(k) != label_text(i) by {
        let a = label_text(k);
        let b = label_text(i);
        assert(a.len() != b.len() || a[0] != b[0] || a[2] != b[2]);
    }
    lemma_label_index_from(label_text(i), 0, i);
}

proof fn lemma_label_index_from(s: Seq<char>, from: int, i: int)
    requires
        0 <= from <= i < 13,
        label_text(i) == s,
        forall|k: int| from <= k < i ==> label_text(k) != s,
    ensures
        label_index_from(s, from) == Some(i),
    decreases i - from,
{
    if from < i {
        lemma_label_index_from(s, from + 1, i);
    }
}

} // verus!
