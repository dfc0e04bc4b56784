//! Curves and their history: decoding CSV rows into curves, building the
//! date-ordered history of a year, and resolving requested dates.
use crate::columns::{active_flags, first_unknown, flags_of, header_labels, present_count, rank, slot_present};
use crate::date::{date_of_text, parse_date, Date};
use crate::error::TreasuryCurveError;
use crate::MAX_FORWARD_DAYS;
use crate::labels::{label_index, label_text, search_labels, CURVE_LENGTH};
use crate::rate::{parse_rate, rate_of_text, Rate};
use crate::text::{chars_of, lemma_split_on_nonempty, ranges_hold, split_on, split_ranges};
use vstd::prelude::*;

verus! {

/// One curve for a single date: the yield of each canonical tenor, in the
/// canonical order, or `None` where that tenor was not published.
#[derive(Clone, Copy, Debug)]
pub struct TreasuryCurve(pub [Option<Rate>; 13]);

impl View for TreasuryCurve {
    type V = Seq<Option<Rate>>;

    open spec fn view(&self) -> Seq<Option<Rate>> {
        self.0@
    }
}

/// The curve of a row's values: canonical slots walked in order, an absence
/// where the mask lacks the slot, else the next value.
pub open spec fn align(values: Seq<Rate>, flags: u16) -> Seq<Option<Rate>> {
    Seq::new(
        13,
        |j: int|
            if slot_present(flags, j) {
                Some(values[rank(flags, j)])
            } else {
                None
            },
    )
}

/// The yields of a row's fields after its date field, when all of them read.
pub open spec fn row_values(fields: Seq<Seq<char>>) -> Option<Seq<Rate>> {
    if fields.len() >= 1 && forall|k: int| 1 <= k < fields.len() ==> (#[trigger] rate_of_text(fields[k])).is_some() {
        Some(Seq::new((fields.len() - 1) as nat, |k: int| rate_of_text(fields[k + 1])->0))
    } else {
        None
    }
}

/// The curve of a row split into its fields, under the mask `flags`.
pub open spec fn curve_of_fields(fields: Seq<Seq<char>>, flags: u16) -> Option<Seq<Option<Rate>>> {
    match row_values(fields) {
        Some(v) => if v.len() == present_count(flags) {
            Some(align(v, flags))
        } else {
            None
        },
        None => None,
    }
}

/// The curve of the CSV row `line` under the mask `flags`.
pub open spec fn curve_of_line(line: Seq<char>, flags: u16) -> Option<Seq<Option<Rate>>> {
    curve_of_fields(split_on(line, ','), flags)
}

/// Ranks grow with the slot.
pub proof fn lemma_rank_monotone(flags: u16, a: int, b: int)
    requires
        0 <= a <= b,
    ensures
        rank(flags, a) <= rank(flags, b),
    decreases b - a,
{
    if a < b {
        lemma_rank_monotone(flags, a, b - 1);
    }
}

/// Reads the yields of fields `1..` and places them by the mask.
fn curve_from_fields(s: &Vec<char>, fields: &Vec<(usize, usize)>, flags: u16) -> (r: Option<
    TreasuryCurve,
>)
    requires
        fields@.len() >= 1,
        forall|k: int| 0 <= k < fields@.len() ==> #[trigger] fields@[k].0 <= fields@[k].1 <= s@.len(),
    ensures
        r.is_some() == curve_of_fields(
            fields@.map_values(|p: (usize, usize)| s@.subrange(p.0 as int, p.1 as int)),
            flags,
        ).is_some(),
        r.is_some() ==> curve_of_fields(
            fields@.map_values(|p: (usize, usize)| s@.subrange(p.0 as int, p.1 as int)),
            flags,
        ) == Some(r.unwrap()@),
{
    let ghost pieces = fields@.map_values(|p: (usize, usize)| s@.subrange(p.0 as int, p.1 as int));
    let mut values: Vec<Rate> = Vec::new();
    let mut k: usize = 1;
    while k < fields.len()
        invariant
            1 <= k <= fields@.len(),
            pieces == fields@.map_values(|p: (usize, usize)| s@.subrange(p.0 as int, p.1 as int)),
            forall|m: int| 0 <= m < fields@.len() ==> #[trigger] fields@[m].0 <= fields@[m].1 <= s@.len(),
            values@.len() == k - 1,
            forall|m: int| 1 <= m < k ==> rate_of_text(#[trigger] pieces[m]) == Some(values@[m - 1]),
        decreases fields@.len() - k,
    {
        let (a, b) = fields[k];
        match parse_rate(s, a, b) {
            Some(v) => values.push(v),
            None => {
                assert(rate_of_text(pieces[k as int]).is_none());
                return None;
            },
        }
        k = k + 1;
    }
    assert(row_values(pieces) == Some(values@)) by {
        assert(Seq::new((pieces.len() - 1) as nat, |m: int| rate_of_text(pieces[m + 1])->0) =~= values@);
    }
    let mut count: usize = 0;
    let mut j: usize = 0;
    while j < CURVE_LENGTH
        invariant
            j <= CURVE_LENGTH,
            count == rank(flags, j as int),
            count <= j,
        decreases CURVE_LENGTH - j,
    {
        if (flags >> (j as u16)) & 1 == 1 {
            count = count + 1;
        }
        j = j + 1;
    }
    if count != values.len() {
        return None;
    }
    let mut rates: [Option<Rate>; 13] = [None; 13];
    let mut next: usize = 0;
    let mut j: usize = 0;
    while j < CURVE_LENGTH
        invariant
            j <= CURVE_LENGTH,
            values@.len() == present_count(flags),
            next == rank(flags, j as int),
            next <= j,
            forall|m: int| 0 <= m < j ==> rates@[m] == align(values@, flags)[m],
        decreases CURVE_LENGTH - j,
    {
        proof {
            lemma_rank_monotone(flags, j + 1, 13);
            assert(rank(flags, j + 1) == rank(flags, j as int) + if slot_present(flags, j as int) {
                1int
            } else {
                0int
            });
        }
        if (flags >> (j as u16)) & 1 == 1 {
            rates[j] = Some(values[next]);
            next = next + 1;
        } else {
            rates[j] = None;
        }
        j = j + 1;
    }
    let curve = TreasuryCurve(rates);
    assert(curve@ =~= align(values@, flags));
    Some(curve)
}

/// Decodes one CSV row (its date field is skipped) into a curve under the
/// mask `flags`; fails with `DecodeFailure` holding the row where a yield
/// does not read or their number differs from the mask's.
pub fn load_curve(data: &str, flags: &u16) -> (r: Result<TreasuryCurve, TreasuryCurveError>)
    ensures
        match r {
            Ok(c) => curve_of_line(data@, *flags) == Some(c@),
            Err(TreasuryCurveError::DecodeFailure(s)) => curve_of_line(data@, *flags).is_none() && s@
                == data@,
            Err(_) => false,
        },
{
    let chars = chars_of(data);
    let fields = split_ranges(&chars, 0, chars.len(), ',');
    assert(chars@.subrange(0, chars@.len() as int) =~= data@);
    proof {
        lemma_split_on_nonempty(data@, ',');
        let pieces = fields@.map_values(|p: (usize, usize)| chars@.subrange(p.0 as int, p.1 as int));
        assert(pieces =~= split_on(data@, ','));
    }
    match curve_from_fields(&chars, &fields, *flags) {
        Some(c) => Ok(c),
        None => Err(TreasuryCurveError::DecodeFailure(data.to_owned())),
    }
}

/// The pairs `(primary[i], secondary[i])`.
pub open spec fn zip_pairs<C>(primary: Seq<Date>, secondary: Seq<C>) -> Seq<(Date, C)> {
    Seq::new(primary.len(), |i: int| (primary[i], secondary[i]))
}

/// Whether `a` may stand before `b`: earlier-or-equal when ascending,
/// later-or-equal when descending.
pub open spec fn in_order(a: Date, b: Date, ascending: bool) -> bool {
    if ascending {
        a.day_number() <= b.day_number()
    } else {
        a.day_number() >= b.day_number()
    }
}

/// Whether the dates are sorted in the given direction.
pub open spec fn sorted_by_date(dates: Seq<Date>, ascending: bool) -> bool {
    forall|i: int, j: int| 0 <= i < j < dates.len() ==> in_order(#[trigger] dates[i], #[trigger] dates[j], ascending)
}

proof fn lemma_swap_multiset<A>(s: Seq<A>, i: int, m: int)
    requires
        0 <= i < s.len(),
        0 <= m < s.len(),
    ensures
        s.update(i, s[m]).update(m, s[i]).to_multiset() == s.to_multiset(),
{
    broadcast use vstd::seq_lib::to_multiset_update;
    broadcast use vstd::multiset::group_multiset_axioms;

    let s1 = s.update(i, s[m]);
    assert(s1.to_multiset() == s.to_multiset().insert(s[m]).remove(s[i]));
    assert(s1.len() == s.len());
    assert(s1.update(m, s[i]).to_multiset() == s1.to_multiset().insert(s[i]).remove(s1[m]));
    if i == m {
        assert(s1 =~= s);
        assert(s.update(m, s[i]) =~= s);
    } else {
        assert(s1[m] == s[m]);
        let ms = s.to_multiset();
        vstd::seq_lib::to_multiset_contains(s, s[i]);
        assert(s.contains(s[i]));
        assert(ms.count(s[i]) > 0);
        let r = ms.insert(s[m]).remove(s[i]).insert(s[i]).remove(s[m]);
        assert forall|x: A| r.count(x) == ms.count(x) by {}
        assert(r =~= ms);
    }
}

/// Reorders two paired arrays by the dates of the first, ascending or
/// descending, moving each secondary item with its date.
pub fn sort_arrays<C: Copy>(primary: Vec<Date>, secondary: Vec<C>, ascending: bool) -> (r: (
    Vec<Date>,
    Vec<C>,
))
    requires
        primary@.len() == secondary@.len(),
    ensures
        r.0@.len() == primary@.len(),
        r.1@.len() == primary@.len(),
        zip_pairs(r.0@, r.1@).to_multiset() == zip_pairs(primary@, secondary@).to_multiset(),
        sorted_by_date(r.0@, ascending),
{
    let mut dates = primary;
    let mut items = secondary;
    let n = dates.len();
    let mut i: usize = 0;
    while i < n
        invariant
            n == dates@.len() == items@.len() == primary@.len(),
            i <= n,
            zip_pairs(dates@, items@).to_multiset() == zip_pairs(primary@, secondary@).to_multiset(),
            forall|a: int, b: int| 0 <= a < b < i ==> in_order(#[trigger] dates@[a], #[trigger] dates@[b], ascending),
            forall|a: int, b: int| 0 <= a < i <= b < n ==> in_order(#[trigger] dates@[a], #[trigger] dates@[b], ascending),
        decreases n - i,
    {
        let mut m: usize = i;
        let mut k: usize = i + 1;
        while k < n
            invariant
                n == dates@.len(),
                i <= m < n,
                i < k <= n,
                forall|b: int| i <= b < k ==> in_order(dates@[m as int], #[trigger] dates@[b], ascending),
            decreases n - k,
        {
            let better = if ascending {
                dates[k].julian_day() < dates[m].julian_day()
            } else {
                dates[k].julian_day() > dates[m].julian_day()
            };
            if better {
                m = k;
            }
            k = k + 1;
        }
        let ghost before = zip_pairs(dates@, items@);
        let di = dates[i];
        let dm = dates[m];
        dates.set(i, dm);
        dates.set(m, di);
        let ci = items[i];
        let cm = items[m];
        items.set(i, cm);
        items.set(m, ci);
        proof {
            lemma_swap_multiset(before, i as int, m as int);
            assert(zip_pairs(dates@, items@) =~= before.update(i as int, before[m as int]).update(
                m as int,
                before[i as int],
            ));
        }
        i = i + 1;
    }
    (dates, items)
}

impl TreasuryCurve {
    /// The yield of the tenor labelled `label`: `Ok(None)` where it was not
    /// published; `MissingLabel` where `label` names no tenor.
    pub fn get_label(&self, label: &str) -> (r: Result<Option<Rate>, TreasuryCurveError>)
        ensures
            match label_index(label@) {
                Some(i) => r == Ok::<Option<Rate>, TreasuryCurveError>(self@[i]),
                None => match r {
                    Err(TreasuryCurveError::MissingLabel(s)) => s@ == label@,
                    _ => false,
                },
            },
    {
        proof {
            crate::columns::lemma_label_index_bound(label@);
        }
        match search_labels(label) {
            Some(index) => Ok(self.0[index]),
            None => Err(TreasuryCurveError::MissingLabel(label.to_owned())),
        }
    }
}

/// The date of a CSV row: its first field, read as `MM/DD/YYYY`.
pub open spec fn date_of_line(line: Seq<char>) -> Option<Date> {
    date_of_text(split_on(line, ',')[0])
}

/// Reads the date of a CSV row; fails with `DecodeFailure` holding the row.
pub fn load_date(data: &str) -> (r: Result<Date, TreasuryCurveError>)
    ensures
        match r {
            Ok(d) => date_of_line(data@) == Some(d),
            Err(TreasuryCurveError::DecodeFailure(s)) => date_of_line(data@).is_none() && s@ == data@,
            Err(_) => false,
        },
{
    let chars = chars_of(data);
    let fields = split_ranges(&chars, 0, chars.len(), ',');
    assert(chars@.subrange(0, chars@.len() as int) =~= data@);
    proof {
        lemma_split_on_nonempty(data@, ',');
    }
    let (a, b) = fields[0];
    match parse_date(&chars, a, b) {
        Some(d) => Ok(d),
        None => Err(TreasuryCurveError::DecodeFailure(data.to_owned())),
    }
}

/// The raw CSV text of one year, as published.
pub struct TreasuryCurveCsv(pub String);

/// A year of curves, most recent first.
#[derive(Debug)]
pub struct TreasuryCurveHistory {
    curves: Vec<TreasuryCurve>,
    dates: Vec<Date>,
}

/// Whether the dates fall strictly, most recent first.
pub open spec fn strictly_descending(dates: Seq<Date>) -> bool {
    forall|i: int, j: int| 0 <= i < j < dates.len() ==> (#[trigger] dates[i]).day_number() > (#[trigger] dates[j]).day_number()
}

/// The first index at or after `k` whose date is not after day `day`.
pub open spec fn first_not_after(dates: Seq<Date>, day: int, k: int) -> int
    decreases dates.len() - k,
{
    if k >= dates.len() || k < 0 {
        dates.len() as int
    } else if dates[k].day_number() <= day {
        k
    } else {
        first_not_after(dates, day, k + 1)
    }
}

/// The entry that answers for the day `day`: none before the oldest date or
/// more than the grace window after the latest; else the most recent entry
/// not after `day`, or the latest within the window.
pub open spec fn as_of_index(dates: Seq<Date>, day: int) -> Option<int> {
    if day < dates.last().day_number() || day > dates[0].day_number() + 5 {
        None
    } else {
        Some(first_not_after(dates, day, 0))
    }
}

impl TreasuryCurveHistory {
    pub closed spec fn spec_dates(self) -> Seq<Date> {
        self.dates@
    }

    pub closed spec fn spec_curves(self) -> Seq<TreasuryCurve> {
        self.curves@
    }

    /// Dates and curves pair up, there is at least one, and the dates fall
    /// strictly, most recent first.
    pub open spec fn wf(self) -> bool {
        &&& self.spec_dates().len() == self.spec_curves().len()
        &&& self.spec_dates().len() >= 1
        &&& strictly_descending(self.spec_dates())
    }

    /// Number of dates held.
    pub fn len(&self) -> (r: usize)
        ensures
            r == self.spec_dates().len(),
    {
        self.dates.len()
    }

    /// The date and curve at position `i`, most recent first.
    pub fn entry(&self, i: usize) -> (r: (Date, TreasuryCurve))
        requires
            self.wf(),
            i < self.spec_dates().len(),
        ensures
            r == (self.spec_dates()[i as int], self.spec_curves()[i as int]),
    {
        (self.dates[i], self.curves[i])
    }

    /// The most recent date and its curve.
    pub fn latest(&self) -> (r: (Date, TreasuryCurve))
        requires
            self.wf(),
        ensures
            r == (self.spec_dates()[0], self.spec_curves()[0]),
    {
        (self.dates[0], self.curves[0])
    }

    /// The curve for `request_date`: of that date where there is one, else of
    /// the closest date before it; the latest where `request_date` is at most
    /// five days after it. `OutsideDateRange` before the oldest date or later
    /// than that.
    pub fn from_date(&self, request_date: Date) -> (r: Result<(Date, TreasuryCurve), TreasuryCurveError>)
        requires
            self.wf(),
        ensures
            match as_of_index(self.spec_dates(), request_date.day_number()) {
                Some(i) => r == Ok::<(Date, TreasuryCurve), TreasuryCurveError>(
                    (self.spec_dates()[i], self.spec_curves()[i]),
                ),
                None => r == Err::<(Date, TreasuryCurve), TreasuryCurveError>(
                    TreasuryCurveError::OutsideDateRange(request_date),
                ),
            },
    {
        let day = request_date.julian_day() as i64;
        let last = self.dates[self.dates.len() - 1].julian_day() as i64;
        let first = self.dates[0].julian_day() as i64;
        if day < last || day > first + MAX_FORWARD_DAYS {
            Err(TreasuryCurveError::OutsideDateRange(request_date))
        } else {
            let index = self.closest_date(request_date);
            Ok((self.dates[index], self.curves[index]))
        }
    }

    /// Position of the exact date or the closest one before it; the latest
    /// for a date after it, the oldest for a date before that.
    pub fn closest_date(&self, request_date: Date) -> (r: usize)
        requires
            self.wf(),
        ensures
            r < self.spec_dates().len(),
            request_date.day_number() >= self.spec_dates().last().day_number() ==> r
                == first_not_after(self.spec_dates(), request_date.day_number(), 0),
            request_date.day_number() < self.spec_dates().last().day_number() ==> r
                == self.spec_dates().len() - 1,
    {
        let ghost dates = self.dates@;
        let ghost day = request_date.day_number();
        let n = self.dates.len();
        if request_date.julian_day() >= self.dates[0].julian_day() {
            0
        } else if request_date.julian_day() <= self.dates[n - 1].julian_day() {
            proof {
                if day >= dates.last().day_number() {
                    lemma_first_not_after_exact(dates, day, 0, n - 1);
                }
            }
            n - 1
        } else {
            let mut index: usize = 0;
            loop
                invariant
                    index < n,
                    n == dates.len(),
                    dates == self.dates@,
                    dates[n - 1].day_number() < day,
                    day == request_date.day_number(),
                    first_not_after(dates, day, 0) == first_not_after(dates, day, index as int),
                ensures
                    index < n,
                    first_not_after(dates, day, 0) == index,
                decreases n - index,
            {
                let here = self.dates[index].julian_day();
                if here <= request_date.julian_day() {
                    break;
                }
                assert(first_not_after(dates, day, index as int) == first_not_after(
                    dates,
                    day,
                    index + 1,
                ));
                index = index + 1;
            }
            index
        }
    }
}

proof fn lemma_first_not_after_exact(dates: Seq<Date>, day: int, k: int, i: int)
    requires
        0 <= k <= i < dates.len(),
        dates[i].day_number() <= day,
        forall|m: int| k <= m < i ==> (#[trigger] dates[m]).day_number() > day,
    ensures
        first_not_after(dates, day, k) == i,
    decreases i - k,
{
    if k < i {
        lemma_first_not_after_exact(dates, day, k + 1, i);
    }
}

proof fn lemma_count_two<A>(s: Seq<A>, i: int, j: int)
    requires
        0 <= i < j < s.len(),
        s[i] == s[j],
    ensures
        s.to_multiset().count(s[i]) >= 2,
    decreases s.len(),
{
    broadcast use vstd::seq_lib::to_multiset_build;
    broadcast use vstd::seq_lib::to_multiset_contains;
    broadcast use vstd::multiset::group_multiset_axioms;

    let t = s.drop_last();
    assert(s =~= t.push(s.last()));
    if j == s.len() - 1 {
        assert(t[i] == s[i]);
        assert(t.contains(s[i]));
    } else {
        assert(t[i] == s[i] && t[j] == s[j]);
        lemma_count_two(t, i, j);
    }
}

proof fn lemma_two_of_count<A>(s: Seq<A>, x: A)
    requires
        s.to_multiset().count(x) >= 2,
    ensures
        exists|i: int, j: int| 0 <= i < j < s.len() && s[i] == x && s[j] == x,
    decreases s.len(),
{
    broadcast use vstd::seq_lib::to_multiset_build;
    broadcast use vstd::seq_lib::to_multiset_contains;
    broadcast use vstd::multiset::group_multiset_axioms;

    if s.len() == 0 {
        assert(s.to_multiset() =~= vstd::multiset::Multiset::empty());
    } else {
        let t = s.drop_last();
        assert(s =~= t.push(s.last()));
        if s.last() == x {
            assert(t.to_multiset().count(x) >= 1);
            assert(t.contains(x));
            let i = choose|i: int| 0 <= i < t.len() && t[i] == x;
            assert(s[i] == x && s[s.len() - 1] == x);
        } else {
            lemma_two_of_count(t, x);
            let (i, j) = choose|i: int, j: int| 0 <= i < j < t.len() && t[i] == x && t[j] == x;
            assert(s[i] == x && s[j] == x);
        }
    }
}

/// Whether no two of the dates share a day.
pub open spec fn distinct_days(dates: Seq<Date>) -> bool {
    forall|i: int, j: int| 0 <= i < j < dates.len() ==> (#[trigger] dates[i]).day_number() != (#[trigger] dates[j]).day_number()
}

/// Sorting pairs with distinct days, most recent first, leaves the days
/// strictly descending.
proof fn lemma_sorted_distinct<C>(d: Seq<Date>, c: Seq<C>, d2: Seq<Date>, c2: Seq<C>)
    requires
        d.len() == c.len(),
        d2.len() == c2.len() == d.len(),
        zip_pairs(d2, c2).to_multiset() == zip_pairs(d, c).to_multiset(),
        sorted_by_date(d2, false),
        distinct_days(d),
    ensures
        strictly_descending(d2),
{
    broadcast use vstd::seq_lib::to_multiset_contains;

    let z = zip_pairs(d, c);
    let z2 = zip_pairs(d2, c2);
    assert forall|i: int, j: int| 0 <= i < j < d2.len() implies (#[trigger] d2[i]).day_number() > (#[trigger] d2[j]).day_number() by {
        assert(in_order(d2[i], d2[j], false));
        if d2[i].day_number() == d2[j].day_number() {
            assert(z2.contains(z2[i]));
            assert(z2.contains(z2[j]));
            vstd::seq_lib::to_multiset_contains(z2, z2[i]);
            vstd::seq_lib::to_multiset_contains(z2, z2[j]);
            vstd::seq_lib::to_multiset_contains(z, z2[i]);
            vstd::seq_lib::to_multiset_contains(z, z2[j]);
            assert(z.contains(z2[i]));
            assert(z.contains(z2[j]));
            let ki = choose|k: int| 0 <= k < z.len() && z[k] == z2[i];
            let kj = choose|k: int| 0 <= k < z.len() && z[k] == z2[j];
            assert(z[ki].0 == d[ki] && z[kj].0 == d[kj]);
            assert(z2[i].0 == d2[i] && z2[j].0 == d2[j]);
            if ki == kj {
                assert(z2[i] == z2[j]);
                lemma_count_two(z2, i, j);
                lemma_two_of_count(z, z2[i]);
                let (a, b) = choose|a: int, b: int| 0 <= a < b < z.len() && z[a] == z2[i] && z[b] == z2[i];
                assert(z[a].0 == d[a] && z[b].0 == d[b]);
                assert(d[a].day_number() == d[b].day_number());
            } else if ki < kj {
                assert(d[ki].day_number() == d[kj].day_number());
            } else {
                assert(d[kj].day_number() == d[ki].day_number());
            }
        }
    }
}

/// A header field without the double quotes around it, if it has them.
pub open spec fn unquote(f: Seq<char>) -> Seq<char> {
    if f.len() >= 2 && f[0] == '"' && f.last() == '"' {
        f.subrange(1, f.len() - 1)
    } else {
        f
    }
}

/// The lines of a CSV text.
pub open spec fn csv_lines(text: Seq<char>) -> Seq<Seq<char>> {
    split_on(text, '\n')
}

/// The tenor labels of a CSV text's header line, unquoted, date column skipped.
pub open spec fn csv_labels(text: Seq<char>) -> Seq<Seq<char>> {
    header_labels(split_on(csv_lines(text)[0], ',').map_values(|f: Seq<char>| unquote(f)))
}

/// The lines after the header.
pub open spec fn data_lines(text: Seq<char>) -> Seq<Seq<char>> {
    csv_lines(text).drop_first()
}

/// The lines that are not empty.
pub open spec fn nonempty_lines(lines: Seq<Seq<char>>) -> Seq<Seq<char>>
    decreases lines.len(),
{
    if lines.len() == 0 {
        lines
    } else {
        let init = nonempty_lines(lines.drop_last());
        if lines.last().len() == 0 {
            init
        } else {
            init.push(lines.last())
        }
    }
}

/// The date and curve of a CSV row under the mask `flags`, when both read.
pub open spec fn row_entry(line: Seq<char>, flags: u16) -> Option<(Date, Seq<Option<Rate>>)> {
    match (date_of_line(line), curve_of_line(line, flags)) {
        (Some(d), Some(c)) => Some((d, c)),
        _ => None,
    }
}

/// The first of `lines` that is not empty and does not decode.
pub open spec fn first_bad_line(lines: Seq<Seq<char>>, flags: u16) -> Option<int>
    decreases lines.len(),
{
    if lines.len() == 0 {
        None
    } else {
        match first_bad_line(lines.drop_last(), flags) {
            Some(k) => Some(k),
            None => if lines.last().len() > 0 && row_entry(lines.last(), flags).is_none() {
                Some(lines.len() - 1)
            } else {
                None
            },
        }
    }
}

/// The decoded rows, in the order of the text.
pub open spec fn row_entries(rows: Seq<Seq<char>>, flags: u16) -> Seq<(Date, Seq<Option<Rate>>)> {
    Seq::new(rows.len(), |k: int| row_entry(rows[k], flags)->0)
}

/// The dates of the entries.
pub open spec fn entry_dates(entries: Seq<(Date, Seq<Option<Rate>>)>) -> Seq<Date> {
    entries.map_values(|e: (Date, Seq<Option<Rate>>)| e.0)
}

proof fn lemma_first_bad_line_prefix(s: Seq<Seq<char>>, m: int, flags: u16)
    requires
        0 <= m <= s.len(),
        first_bad_line(s.subrange(0, m), flags).is_some(),
    ensures
        first_bad_line(s, flags) == first_bad_line(s.subrange(0, m), flags),
    decreases s.len() - m,
{
    if m < s.len() {
        let p = s.subrange(0, m + 1);
        assert(p.drop_last() =~= s.subrange(0, m));
        lemma_first_bad_line_prefix(s, m + 1, flags);
    } else {
        assert(s.subrange(0, m) =~= s);
    }
}

impl TreasuryCurveHistory {
    /// The history's dates paired with their curves, most recent first.
    pub open spec fn spec_entries(self) -> Seq<(Date, Seq<Option<Rate>>)> {
        paired_views(self.spec_dates(), self.spec_curves())
    }

    /// Whether the history holds exactly the entries `entries`.
    pub open spec fn holds_entries(self, entries: Seq<(Date, Seq<Option<Rate>>)>) -> bool {
        &&& self.spec_dates().len() == entries.len()
        &&& forall|i: int| 0 <= i < entries.len() ==> entries.contains(#[trigger] self.spec_entries()[i])
        &&& forall|k: int| 0 <= k < entries.len() ==> self.spec_entries().contains(#[trigger] entries[k])
    }

    /// Builds the history of a year from its CSV text: the header's labels
    /// give the mask, every non-empty line after it gives a date and a curve,
    /// and the entries are put most recent first.
    #[verifier::loop_isolation(false)]
    pub fn try_from(value: TreasuryCurveCsv) -> (r: Result<Self, TreasuryCurveError>)
        ensures
            ({
                let text = value.0@;
                let labels = csv_labels(text);
                let flags = flags_of(labels);
                let lines = data_lines(text);
                let entries = row_entries(nonempty_lines(lines), flags);
                match r {
                    Ok(h) => {
                        &&& first_unknown(labels).is_none()
                        &&& first_bad_line(lines, flags).is_none()
                        &&& entries.len() > 0
                        &&& distinct_days(entry_dates(entries))
                        &&& h.wf()
                        &&& h.holds_entries(entries)
                    },
                    Err(TreasuryCurveError::MissingLabel(s)) => first_unknown(labels).is_some() && s@
                        == labels[first_unknown(labels)->0],
                    Err(TreasuryCurveError::DecodeFailure(s)) => {
                        &&& first_unknown(labels).is_none()
                        &&& first_bad_line(lines, flags).is_some()
                        &&& s@ == lines[first_bad_line(lines, flags)->0]
                    },
                    Err(TreasuryCurveError::NoData) => {
                        &&& first_unknown(labels).is_none()
                        &&& first_bad_line(lines, flags).is_none()
                        &&& entries.len() == 0
                    },
                    Err(TreasuryCurveError::DuplicateDate(d)) => {
                        &&& first_unknown(labels).is_none()
                        &&& first_bad_line(lines, flags).is_none()
                        &&& exists|i: int, j: int|
                            0 <= i < j < entries.len() && entries[i].0.day_number()
                                == d.day_number() && entries[j].0 == d
                    },
                    Err(_) => false,
                }
            }),
    {
        let text = value.0.as_str();
        let ghost t = text@;
        let chars = chars_of(text);
        let n = chars.len();
        assert(chars@.subrange(0, n as int) =~= t);
        let lines = split_ranges(&chars, 0, n, '\n');
        let ghost line_pieces = csv_lines(t);
        proof {
            lemma_split_on_nonempty(t, '\n');
        }
        // the header: unquoted fields, resolved into the mask
        let (ha, hb) = lines[0];
        let hfields = split_ranges(&chars, ha, hb, ',');
        let ghost hpieces = split_on(line_pieces[0], ',');
        assert(chars@.subrange(ha as int, hb as int) == line_pieces[0]);
        let mut headers: Vec<&str> = Vec::new();
        let mut m: usize = 0;
        while m < hfields.len()
            invariant
                chars@ == t,
                text@ == t,
                ranges_hold(chars@, hfields@, hpieces),
                m <= hfields@.len(),
                headers@.len() == m,
                forall|x: int| 0 <= x < m ==> (#[trigger] headers@[x])@ == unquote(hpieces[x]),
            decreases hfields@.len() - m,
        {
            let (p, q) = hfields[m];
            let ghost piece = hpieces[m as int];
            assert(piece == chars@.subrange(p as int, q as int));
            let field = if q - p >= 2 && chars[p] == '"' && chars[q - 1] == '"' {
                assert(unquote(piece) =~= chars@.subrange(p + 1, q - 1));
                text.substring_char(p + 1, q - 1)
            } else {
                text.substring_char(p, q)
            };
            headers.push(field);
            m = m + 1;
        }
        let ghost labels = csv_labels(t);
        assert(headers@.map_values(|h: &str| h@) =~= hpieces.map_values(|f: Seq<char>| unquote(f)));
        let flags = match active_flags(headers.as_slice()) {
            Ok(f) => f,
            Err(e) => {
                return Err(e);
            },
        };
        // the rows
        let ghost data = data_lines(t);
        let mut dates: Vec<Date> = Vec::new();
        let mut curves: Vec<TreasuryCurve> = Vec::new();
        let mut k: usize = 1;
        while k < lines.len()
            invariant
                chars@ == t,
                text@ == t,
                1 <= k <= lines@.len(),
                ranges_hold(chars@, lines@, line_pieces),
                line_pieces == csv_lines(t),
                data == line_pieces.drop_first(),
                first_bad_line(data.subrange(0, k - 1), flags).is_none(),
                dates@.len() == curves@.len() == nonempty_lines(data.subrange(0, k - 1)).len(),
                forall|x: int|
                    0 <= x < dates@.len() ==> row_entry(
                        #[trigger] nonempty_lines(data.subrange(0, k - 1))[x],
                        flags,
                    ) == Some((dates@[x], curves@[x]@)),
            decreases lines@.len() - k,
        {
            let (a, b) = lines[k];
            let ghost line = data[k - 1];
            let ghost pre = data.subrange(0, k - 1);
            let ghost next = data.subrange(0, k as int);
            assert(next.drop_last() =~= pre);
            assert(line == chars@.subrange(a as int, b as int));
            if a < b {
                let fields = split_ranges(&chars, a, b, ',');
                proof {
                    lemma_split_on_nonempty(line, ',');
                    let fp = fields@.map_values(|p: (usize, usize)| chars@.subrange(p.0 as int, p.1 as int));
                    assert(fp =~= split_on(line, ','));
                }
                let (fa, fb) = fields[0];
                let date = parse_date(&chars, fa, fb);
                let curve = curve_from_fields(&chars, &fields, flags);
                match (date, curve) {
                    (Some(d), Some(c)) => {
                        dates.push(d);
                        curves.push(c);
                    },
                    _ => {
                        assert(first_bad_line(next, flags) == Some(k - 1));
                        proof {
                            lemma_first_bad_line_prefix(data, k as int, flags);
                        }
                        return Err(TreasuryCurveError::DecodeFailure(text.substring_char(a, b).to_owned()));
                    },
                }
            }
            k = k + 1;
        }
        assert(data.subrange(0, lines@.len() - 1) =~= data);
        let ghost entries = row_entries(nonempty_lines(data), flags);
        assert(dates@ =~= entry_dates(entries));
        if dates.len() == 0 {
            return Err(TreasuryCurveError::NoData);
        }
        // no two rows may share a date
        let count = dates.len();
        let mut i: usize = 0;
        while i < count
            invariant
                count == dates@.len(),
                dates@ == entry_dates(entries),
                i <= count,
                forall|x: int, y: int| 0 <= x < i && x < y < count ==> (#[trigger] dates@[x]).day_number() != (#[trigger] dates@[y]).day_number(),
            decreases count - i,
        {
            let mut j: usize = i + 1;
            while j < count
                invariant
                    count == dates@.len(),
                    dates@ == entry_dates(entries),
                    i < count,
                    i < j <= count,
                    forall|x: int, y: int| 0 <= x < i && x < y < count ==> (#[trigger] dates@[x]).day_number() != (#[trigger] dates@[y]).day_number(),
                    forall|y: int| i < y < j ==> dates@[i as int].day_number() != (#[trigger] dates@[y]).day_number(),
                decreases count - j,
            {
                if dates[i].julian_day() == dates[j].julian_day() {
                    assert(entries[i as int].0 == dates@[i as int]);
                    assert(entries[j as int].0 == dates@[j as int]);
                    return Err(TreasuryCurveError::DuplicateDate(dates[j]));
                }
                j = j + 1;
            }
            i = i + 1;
        }
        let ghost d0 = dates@;
        let ghost c0 = curves@;
        let (dates, curves) = sort_arrays(dates, curves, false);
        proof {
            lemma_sorted_distinct(d0, c0, dates@, curves@);
        }
        let h = TreasuryCurveHistory { curves, dates };
        proof {
            lemma_holds_entries(d0, c0, h.dates@, h.curves@, entries);
        }
        Ok(h)
    }
}

/// Dates paired with the views of their curves.
pub open spec fn paired_views(d: Seq<Date>, c: Seq<TreasuryCurve>) -> Seq<(Date, Seq<Option<Rate>>)> {
    Seq::new(d.len(), |i: int| (d[i], c[i]@))
}

proof fn lemma_holds_entries(
    d: Seq<Date>,
    c: Seq<TreasuryCurve>,
    d2: Seq<Date>,
    c2: Seq<TreasuryCurve>,
    entries: Seq<(Date, Seq<Option<Rate>>)>,
)
    requires
        d.len() == c.len() == entries.len(),
        d2.len() == c2.len() == d.len(),
        zip_pairs(d2, c2).to_multiset() == zip_pairs(d, c).to_multiset(),
        forall|x: int| 0 <= x < d.len() ==> #[trigger] entries[x] == (d[x], c[x]@),
    ensures
        forall|i: int| 0 <= i < entries.len() ==> entries.contains(#[trigger] paired_views(d2, c2)[i]),
        forall|k: int| 0 <= k < entries.len() ==> paired_views(d2, c2).contains(#[trigger] entries[k]),
{
    let z = zip_pairs(d, c);
    let z2 = zip_pairs(d2, c2);
    let v2 = paired_views(d2, c2);
    assert forall|i: int| 0 <= i < entries.len() implies entries.contains(#[trigger] v2[i]) by {
        vstd::seq_lib::to_multiset_contains(z2, z2[i]);
        vstd::seq_lib::to_multiset_contains(z, z2[i]);
        assert(z2.contains(z2[i]));
        let k = choose|k: int| 0 <= k < z.len() && z[k] == z2[i];
        assert(z[k] == (d[k], c[k]) && z2[i] == (d2[i], c2[i]));
        assert(entries[k] == v2[i]);
    }
    assert forall|k: int| 0 <= k < entries.len() implies v2.contains(#[trigger] entries[k]) by {
        vstd::seq_lib::to_multiset_contains(z, z[k]);
        vstd::seq_lib::to_multiset_contains(z2, z[k]);
        assert(z.contains(z[k]));
        let i = choose|i: int| 0 <= i < z2.len() && z2[i] == z[k];
        assert(z[k] == (d[k], c[k]) && z2[i] == (d2[i], c2[i]));
        assert(entries[k] == v2[i]);
    }
}

/// A header that names every tenor marks all thirteen slots, and every row
/// it decodes has a yield for each tenor.
pub proof fn lemma_full_header(labels: Seq<Seq<char>>, line: Seq<char>)
    requires
        first_unknown(labels).is_none(),
        forall|j: int| 0 <= j < 13 ==> #[trigger] labels.contains(label_text(j)),
    ensures
        flags_of(labels) == 0x1FFFu16,
        present_count(flags_of(labels)) == 13,
        curve_of_line(line, flags_of(labels)) matches Some(c) ==> forall|j: int|
            0 <= j < 13 ==> (#[trigger] c[j]).is_some(),
{
    let f = flags_of(labels);
    crate::columns::lemma_unknown_label_fails(labels);
    assert forall|j: int| 0 <= j < 16 implies slot_present(f, j) == (j < 13) by {
        crate::columns::lemma_flags_of(labels, j);
        if j < 13 {
            assert(labels.contains(label_text(j)));
            let k = choose|k: int| 0 <= k < labels.len() && labels[k] == label_text(j);
            crate::labels::lemma_label_round_trip(j);
            assert(label_index(labels[k]) == Some(j));
        } else {
            if exists|k: int| 0 <= k < labels.len() && #[trigger] label_index(labels[k]) == Some(j) {
                let k = choose|k: int| 0 <= k < labels.len() && #[trigger] label_index(labels[k]) == Some(j);
                crate::columns::lemma_label_index_bound(labels[k]);
            }
        }
    }
    assert(slot_present(f, 0) && slot_present(f, 1) && slot_present(f, 2) && slot_present(f, 3));
    assert(slot_present(f, 4) && slot_present(f, 5) && slot_present(f, 6) && slot_present(f, 7));
    assert(slot_present(f, 8) && slot_present(f, 9) && slot_present(f, 10) && slot_present(f, 11));
    assert(slot_present(f, 12) && !slot_present(f, 13) && !slot_present(f, 14) && !slot_present(f, 15));
    assert(f == 0x1FFFu16) by (bit_vector)
        requires
            (f >> 0u16) & 1u16 == 1u16,
            (f >> 1u16) & 1u16 == 1u16,
            (f >> 2u16) & 1u16 == 1u16,
            (f >> 3u16) & 1u16 == 1u16,
            (f >> 4u16) & 1u16 == 1u16,
            (f >> 5u16) & 1u16 == 1u16,
            (f >> 6u16) & 1u16 == 1u16,
            (f >> 7u16) & 1u16 == 1u16,
            (f >> 8u16) & 1u16 == 1u16,
            (f >> 9u16) & 1u16 == 1u16,
            (f >> 10u16) & 1u16 == 1u16,
            (f >> 11u16) & 1u16 == 1u16,
            (f >> 12u16) & 1u16 == 1u16,
            (f >> 13u16) & 1u16 != 1u16,
            (f >> 14u16) & 1u16 != 1u16,
            (f >> 15u16) & 1u16 != 1u16,
    ;
    reveal_with_fuel(rank, 14);
}

/// Decoding a row under a header: a tenor is absent exactly where the header
/// lacks its label, and the present tenors take the row's values in order.
pub proof fn lemma_absences_at_missing(labels: Seq<Seq<char>>, line: Seq<char>)
    requires
        first_unknown(labels).is_none(),
        curve_of_line(line, flags_of(labels)).is_some(),
    ensures
        ({
            let f = flags_of(labels);
            let c = curve_of_line(line, f)->0;
            let values = row_values(split_on(line, ','))->0;
            &&& c.len() == 13
            &&& values.len() == present_count(f)
            &&& forall|j: int| 0 <= j < 13 ==> ((#[trigger] c[j]).is_none() <==> !labels.contains(label_text(j)))
            &&& forall|j: int| 0 <= j < 13 && labels.contains(label_text(j)) ==> #[trigger] c[j] == Some(values[rank(f, j)])
            &&& forall|j: int| 0 <= j < 13 && slot_present(f, j) ==> 0 <= #[trigger] rank(f, j) < values.len()
            &&& forall|i: int, j: int| 0 <= i < j < 13 && slot_present(f, i) && slot_present(f, j) ==> #[trigger] rank(f, i) < #[trigger] rank(f, j)
        }),
{
    let f = flags_of(labels);
    crate::columns::lemma_unknown_label_fails(labels);
    assert forall|j: int| 0 <= j < 13 implies slot_present(f, j) == labels.contains(label_text(j)) by {
        crate::columns::lemma_flags_of(labels, j);
        crate::labels::lemma_label_round_trip(j);
        if labels.contains(label_text(j)) {
            let k = choose|k: int| 0 <= k < labels.len() && labels[k] == label_text(j);
            assert(label_index(labels[k]) == Some(j));
        }
        if slot_present(f, j) {
            let k = choose|k: int| 0 <= k < labels.len() && #[trigger] label_index(labels[k]) == Some(j);
            lemma_label_index_text(labels[k], 0, j);
            assert(labels[k] == label_text(j));
        }
    }
    assert forall|j: int| 0 <= j < 13 && slot_present(f, j) implies 0 <= #[trigger] rank(f, j) < present_count(f) by {
        lemma_rank_monotone(f, j + 1, 13);
        lemma_rank_nonneg(f, j);
    }
    assert forall|i: int, j: int| 0 <= i < j < 13 && slot_present(f, i) && slot_present(f, j) implies #[trigger] rank(f, i) < #[trigger] rank(f, j) by {
        lemma_rank_monotone(f, i + 1, j);
    }
    let fields = split_on(line, ',');
    let values = row_values(fields)->0;
    assert(row_values(fields).is_some());
    assert(values.len() == present_count(f));
    let c = curve_of_line(line, f)->0;
    assert(c == align(values, f));
    assert forall|j: int| 0 <= j < 13 implies ((#[trigger] c[j]).is_none() <==> !labels.contains(label_text(j))) by {
        assert(c[j] == if slot_present(f, j) { Some(values[rank(f, j)]) } else { None });
    }
    assert forall|j: int| 0 <= j < 13 && labels.contains(label_text(j)) implies #[trigger] c[j] == Some(values[rank(f, j)]) by {
        assert(c[j] == if slot_present(f, j) { Some(values[rank(f, j)]) } else { None });
    }
    assert(c.len() == 13);
}

proof fn lemma_rank_nonneg(flags: u16, j: int)
    ensures
        rank(flags, j) >= 0,
    decreases j,
{
    if j > 0 {
        lemma_rank_nonneg(flags, j - 1);
    }
}

proof fn lemma_label_index_text(s: Seq<char>, from: int, j: int)
    requires
        0 <= from,
        crate::labels::label_index_from(s, from) == Some(j),
    ensures
        label_text(j) == s,
    decreases 13 - from,
{
    if from < 13 && label_text(from) != s {
        lemma_label_index_text(s, from + 1, j);
    }
}

/// The resolved entry is never dated after the requested day: it is the most
/// recent one not after it, the exact date where the history has it, and the
/// latest for a day up to five days past the latest.
pub proof fn lemma_as_of_never_after(dates: Seq<Date>, day: int)
    requires
        dates.len() >= 1,
        strictly_descending(dates),
    ensures
        as_of_index(dates, day) matches Some(i) ==> {
            &&& 0 <= i < dates.len()
            &&& dates[i].day_number() <= day
            &&& forall|m: int| 0 <= m < i ==> (#[trigger] dates[m]).day_number() > day
        },
        dates[0].day_number() <= day <= dates[0].day_number() + 5 ==> as_of_index(dates, day) == Some(0int),
        forall|k: int| 0 <= k < dates.len() && (#[trigger] dates[k]).day_number() == day ==> as_of_index(dates, day) == Some(k),
{
    let n = dates.len() as int;
    if as_of_index(dates, day) is Some {
        lemma_first_not_after_found(dates, day, 0);
    }
    assert forall|k: int| 0 <= k < dates.len() && (#[trigger] dates[k]).day_number() == day implies as_of_index(dates, day) == Some(k) by {
        if k < n - 1 {
            assert(dates[k].day_number() > dates[n - 1].day_number());
        }
        if k > 0 {
            assert(dates[0].day_number() > dates[k].day_number());
        }
        assert forall|m: int| 0 <= m < k implies (#[trigger] dates[m]).day_number() > day by {
            assert(dates[m].day_number() > dates[k].day_number());
        }
        lemma_first_not_after_exact(dates, day, 0, k);
    }
}

proof fn lemma_first_not_after_found(dates: Seq<Date>, day: int, k: int)
    requires
        0 <= k < dates.len(),
        dates.last().day_number() <= day,
    ensures
        k <= first_not_after(dates, day, k) < dates.len(),
        dates[first_not_after(dates, day, k)].day_number() <= day,
        forall|m: int| k <= m < first_not_after(dates, day, k) ==> (#[trigger] dates[m]).day_number() > day,
    decreases dates.len() - k,
{
    if dates[k].day_number() > day {
        lemma_first_not_after_found(dates, day, k + 1);
    }
}

/// The latest entry of a history built from rows is one of the rows, and no
/// row is dated after it, whatever order the rows came in.
pub proof fn lemma_latest_is_most_recent(h: TreasuryCurveHistory, entries: Seq<(Date, Seq<Option<Rate>>)>)
    requires
        h.wf(),
        h.holds_entries(entries),
    ensures
        entries.contains(h.spec_entries()[0]),
        forall|k: int| 0 <= k < entries.len() ==> (#[trigger] entries[k]).0.day_number() <= h.spec_dates()[0].day_number(),
{
    let v = h.spec_entries();
    assert forall|k: int| 0 <= k < entries.len() implies (#[trigger] entries[k]).0.day_number() <= h.spec_dates()[0].day_number() by {
        assert(v.contains(entries[k]));
        let i = choose|i: int| 0 <= i < v.len() && v[i] == entries[k];
        if i > 0 {
            assert(h.spec_dates()[0].day_number() > h.spec_dates()[i].day_number());
        }
    }
}

} // verus!
