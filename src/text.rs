//! Character-level helpers shared by the parsers.
use vstd::prelude::*;

verus! {

pub open spec fn is_digit(c: char) -> bool {
    '0' <= c && c <= '9'
}

pub open spec fn all_digits(s: Seq<char>) -> bool {
    forall|i: int| 0 <= i < s.len() ==> is_digit(#[trigger] s[i])
}

pub open spec fn digit_value(c: char) -> int {
    c as int - '0' as int
}

/// The number written by the decimal digits `s`, most significant first.
pub open spec fn digits_value(s: Seq<char>) -> int
    decreases s.len(),
{
    if s.len() == 0 {
        0
    } else {
        digits_value(s.drop_last()) * 10 + digit_value(s.last())
    }
}

pub open spec fn pow10(n: nat) -> int
    decreases n,
{
    if n == 0 {
        1
    } else {
        10 * pow10((n - 1) as nat)
    }
}

pub proof fn lemma_pow10_positive(n: nat)
    ensures
        pow10(n) >= 1,
    decreases n,
{
    if n > 0 {
        lemma_pow10_positive((n - 1) as nat);
    }
}

pub proof fn lemma_pow10_add(a: nat, b: nat)
    ensures
        pow10(a + b) == pow10(a) * pow10(b),
    decreases b,
{
    if b > 0 {
        lemma_pow10_add(a, (b - 1) as nat);
        assert(pow10(a + b) == 10 * pow10((a + b - 1) as nat));
        assert(pow10(b) == 10 * pow10((b - 1) as nat));
        assert(pow10(a) * (10 * pow10((b - 1) as nat)) == 10 * (pow10(a) * pow10((b - 1) as nat)))
            by (nonlinear_arith);
    }
}

/// A string of `n` digits stands for a number below `10^n`.
pub proof fn lemma_digits_value_bound(s: Seq<char>)
    requires
        all_digits(s),
    ensures
        0 <= digits_value(s) < pow10(s.len()),
    decreases s.len(),
{
    if s.len() > 0 {
        let t = s.drop_last();
        assert(all_digits(t)) by {
            assert forall|i: int| 0 <= i < t.len() implies is_digit(#[trigger] t[i]) by {
                assert(t[i] == s[i]);
            }
        }
        lemma_digits_value_bound(t);
        let v = digits_value(t);
        let p = pow10(t.len());
        assert(is_digit(s[s.len() - 1]));
        assert(v * 10 <= (p - 1) * 10) by (nonlinear_arith)
            requires
                v <= p - 1,
        ;
        assert(pow10(s.len()) == 10 * p);
    }
}

/// The characters of `s`, in order.
pub fn chars_of(s: &str) -> (r: Vec<char>)
    ensures
        r@ == s@,
{
    let mut r: Vec<char> = Vec::new();
    for c in it: s.chars()
        invariant
            r@ == it.history(),
    {
        r.push(c);
    }
    r
}

/// Reads the digits `s[start..end]` as a decimal number, if they all are digits.
pub fn read_digits(s: &Vec<char>, start: usize, end: usize) -> (r: Option<u64>)
    requires
        start <= end <= s@.len(),
        end - start <= 18,
    ensures
        r.is_some() == all_digits(s@.subrange(start as int, end as int)),
        r.is_some() ==> r.unwrap() as int == digits_value(s@.subrange(start as int, end as int)),
{
    let mut acc: u64 = 0;
    let mut i: usize = start;
    while i < end
        invariant
            start <= i <= end <= s@.len(),
            end - start <= 18,
            all_digits(s@.subrange(start as int, i as int)),
            acc as int == digits_value(s@.subrange(start as int, i as int)),
        decreases end - i,
    {
        let c = s[i];
        if !('0' <= c && c <= '9') {
            assert(!all_digits(s@.subrange(start as int, end as int))) by {
                assert(s@.subrange(start as int, end as int)[i - start] == c);
            }
            return None;
        }
        let ghost pre = s@.subrange(start as int, i as int);
        let ghost next = s@.subrange(start as int, i + 1);
        assert(next.drop_last() =~= pre);
        assert(all_digits(next)) by {
            assert forall|k: int| 0 <= k < next.len() implies is_digit(#[trigger] next[k]) by {
                if k < pre.len() {
                    assert(next[k] == pre[k]);
                }
            }
        }
        proof {
            lemma_digits_value_bound(next);
            lemma_pow10_bound_18(next.len());
        }
        acc = acc * 10 + (c as u64 - '0' as u64);
        i = i + 1;
    }
    Some(acc)
}

pub proof fn lemma_pow10_bound_18(n: nat)
    requires
        n <= 18,
    ensures
        pow10(n) <= 1_000_000_000_000_000_000,
    decreases n,
{
    if n > 0 {
        lemma_pow10_bound_18((n - 1) as nat);
        assert(pow10((n - 1) as nat) <= pow10(17)) by {
            lemma_pow10_monotone((n - 1) as nat, 17);
        }
        reveal_with_fuel(pow10, 18);
    }
}

pub proof fn lemma_pow10_monotone(a: nat, b: nat)
    requires
        a <= b,
    ensures
        pow10(a) <= pow10(b),
    decreases b,
{
    if a < b {
        lemma_pow10_monotone(a, (b - 1) as nat);
        lemma_pow10_positive((b - 1) as nat);
    }
}

/// The pieces of `s` between occurrences of `sep`; one piece more than there
/// are separators.
pub open spec fn split_on(s: Seq<char>, sep: char) -> Seq<Seq<char>>
    decreases s.len(),
{
    if s.len() == 0 {
        seq![Seq::<char>::empty()]
    } else {
        let init = split_on(s.drop_last(), sep);
        if s.last() == sep {
            init.push(Seq::<char>::empty())
        } else {
            init.update(init.len() - 1, init.last().push(s.last()))
        }
    }
}

pub proof fn lemma_split_on_nonempty(s: Seq<char>, sep: char)
    ensures
        split_on(s, sep).len() >= 1,
    decreases s.len(),
{
    if s.len() > 0 {
        lemma_split_on_nonempty(s.drop_last(), sep);
    }
}

/// Whether `r` holds, in order, the bounds of the pieces `pieces` of `s`.
pub open spec fn ranges_hold(s: Seq<char>, r: Seq<(usize, usize)>, pieces: Seq<Seq<char>>) -> bool {
    &&& r.len() == pieces.len()
    &&& forall|k: int|
        0 <= k < r.len() ==> #[trigger] r[k].0 <= r[k].1 <= s.len() && s.subrange(
            r[k].0 as int,
            r[k].1 as int,
        ) == pieces[k]
}

/// The bounds of the pieces of `s[start..end]` between occurrences of `sep`.
pub fn split_ranges(s: &Vec<char>, start: usize, end: usize, sep: char) -> (r: Vec<(usize, usize)>)
    requires
        start <= end <= s@.len(),
    ensures
        ranges_hold(s@, r@, split_on(s@.subrange(start as int, end as int), sep)),
{
    let mut done: Vec<(usize, usize)> = Vec::new();
    let mut piece_start: usize = start;
    let mut i: usize = start;
    assert(s@.subrange(start as int, start as int) =~= Seq::<char>::empty());
    while i < end
        invariant
            start <= piece_start <= i <= end <= s@.len(),
            ranges_hold(
                s@,
                done@.push((piece_start, i)),
                split_on(s@.subrange(start as int, i as int), sep),
            ),
        decreases end - i,
    {
        let ghost pre = s@.subrange(start as int, i as int);
        let ghost next = s@.subrange(start as int, i + 1);
        assert(next.drop_last() =~= pre);
        assert(next.last() == s@[i as int]);
        let ghost old_done = done@;
        proof {
            lemma_split_on_nonempty(pre, sep);
        }
        let ghost pieces = split_on(pre, sep);
        let ghost old_ps = piece_start;
        if s[i] == sep {
            done.push((piece_start, i));
            piece_start = i + 1;
            assert(s@.subrange(i + 1, i + 1) =~= Seq::<char>::empty());
            let ghost nr = done@.push((piece_start, (i + 1) as usize));
            let ghost np = pieces.push(Seq::<char>::empty());
            assert(nr =~= old_done.push((old_ps, i)).push((piece_start, (i + 1) as usize)));
            assert forall|k: int| 0 <= k < nr.len() implies #[trigger] nr[k].0 <= nr[k].1 <= s@.len()
                && s@.subrange(nr[k].0 as int, nr[k].1 as int) == np[k] by {
                if k < nr.len() - 1 {
                    assert(nr[k] == old_done.push((old_ps, i))[k]);
                }
            }
        } else {
            let ghost nr = done@.push((piece_start, (i + 1) as usize));
            let ghost np = pieces.update(pieces.len() - 1, pieces.last().push(s@[i as int]));
            let ghost last = old_done.len() as int;
            let ghost oldr = old_done.push((old_ps, i));
            assert(ranges_hold(s@, oldr, pieces));
            assert(oldr[last] == (old_ps, i));
            assert(pieces.len() == last + 1);
            assert(s@.subrange(oldr[last].0 as int, oldr[last].1 as int) == pieces[last]);
            assert(pieces.last() == s@.subrange(old_ps as int, i as int));
            assert(s@.subrange(piece_start as int, i + 1) =~= s@.subrange(piece_start as int, i as int).push(s@[i as int]));
            assert forall|k: int| 0 <= k < nr.len() implies #[trigger] nr[k].0 <= nr[k].1 <= s@.len()
                && s@.subrange(nr[k].0 as int, nr[k].1 as int) == np[k] by {
                if k < nr.len() - 1 {
                    assert(nr[k] == old_done.push((old_ps, i))[k]);
                } else {
                    assert(old_done.push((old_ps, i))[k] == (old_ps, i));
                }
            }
        }
        i = i + 1;
    }
    done.push((piece_start, end));
    done
}

} // verus!
