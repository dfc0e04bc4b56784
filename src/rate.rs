//! Yields in percent, held exactly as the decimal text that published them.
use crate::text::{all_digits, digits_value, pow10, read_digits};
use vstd::prelude::*;

verus! {

/// A yield in percent: `units / 10^scale`.
#[derive(Clone, Copy, Debug, PartialEq, Eq, Structural)]
pub struct Rate {
    pub units: i64,
    pub scale: u32,
}

/// Index of the first `.` in `b`, or its length where there is none.
pub open spec fn point_index(b: Seq<char>) -> int
    decreases b.len(),
{
    if b.len() == 0 {
        0
    } else if b[0] == '.' {
        0
    } else {
        1 + point_index(b.drop_first())
    }
}

/// The yield written as an optional `-`, one or more digits, and optionally a
/// `.` followed by one or more digits; eighteen digits at most.
pub open spec fn rate_of_text(s: Seq<char>) -> Option<Rate> {
    let neg = s.len() > 0 && s[0] == '-';
    let b = if neg {
        s.drop_first()
    } else {
        s
    };
    let p = point_index(b);
    let ip = b.subrange(0, p);
    let fp = if p < b.len() {
        b.subrange(p + 1, b.len() as int)
    } else {
        Seq::<char>::empty()
    };
    if ip.len() > 0 && all_digits(ip) && all_digits(fp) && (p < b.len() ==> fp.len() > 0)
        && ip.len() + fp.len() <= 18 {
        let magnitude = digits_value(ip) * pow10(fp.len()) + digits_value(fp);
        Some(
            Rate {
                units: (if neg {
                    -magnitude
                } else {
                    magnitude
                }) as i64,
                scale: fp.len() as u32,
            },
        )
    } else {
        None
    }
}

proof fn lemma_point_index(b: Seq<char>, i: int)
    requires
        0 <= i <= b.len(),
        forall|k: int| 0 <= k < i ==> b[k] != '.',
        i == b.len() || b[i] == '.',
    ensures
        point_index(b) == i,
    decreases i,
{
    if i > 0 {
        let t = b.drop_first();
        assert forall|k: int| 0 <= k < i - 1 implies t[k] != '.' by {
            assert(t[k] == b[k + 1]);
        }
        if i < b.len() {
            assert(t[i - 1] == b[i]);
        }
        lemma_point_index(t, i - 1);
    }
}

/// Reads a yield from `s[start..end]`.
pub fn parse_rate(s: &Vec<char>, start: usize, end: usize) -> (r: Option<Rate>)
    requires
        start <= end <= s@.len(),
    ensures
        r == rate_of_text(s@.subrange(start as int, end as int)),
{
    let ghost t = s@.subrange(start as int, end as int);
    let neg = start < end && s[start] == '-';
    let body: usize = if neg {
        start + 1
    } else {
        start
    };
    let ghost b = if neg {
        t.drop_first()
    } else {
        t
    };
    assert(b =~= s@.subrange(body as int, end as int));
    let mut p: usize = body;
    while p < end && s[p] != '.'
        invariant
            body <= p <= end <= s@.len(),
            b == s@.subrange(body as int, end as int),
            forall|k: int| 0 <= k < p - body ==> b[k] != '.',
        decreases end - p,
    {
        p = p + 1;
    }
    proof {
        lemma_point_index(b, p - body);
    }
    let ghost ip = b.subrange(0, p - body);
    assert(ip =~= s@.subrange(body as int, p as int));
    let frac_start: usize = if p < end {
        p + 1
    } else {
        end
    };
    let ghost fp = if p < end {
        b.subrange(p - body + 1, b.len() as int)
    } else {
        Seq::<char>::empty()
    };
    assert(fp =~= s@.subrange(frac_start as int, end as int));
    if p == body || (p < end && frac_start == end) || (p - body) + (end - frac_start) > 18 {
        return None;
    }
    let int_part = read_digits(s, body, p);
    let frac_part = read_digits(s, frac_start, end);
    match (int_part, frac_part) {
        (Some(i), Some(f)) => {
            let scale: u32 = (end - frac_start) as u32;
            let mut factor: u64 = 1;
            let mut k: u32 = 0;
            proof {
                crate::text::lemma_digits_value_bound(ip);
                crate::text::lemma_digits_value_bound(fp);
                crate::text::lemma_pow10_add(ip.len(), fp.len());
                crate::text::lemma_pow10_bound_18(ip.len() + fp.len());
                crate::text::lemma_pow10_positive(ip.len());
            }
            while k < scale
                invariant
                    k <= scale,
                    scale == fp.len(),
                    scale <= 18,
                    factor as int == pow10(k as nat),
                decreases scale - k,
            {
                proof {
                    crate::text::lemma_pow10_monotone((k + 1) as nat, 18);
                    crate::text::lemma_pow10_bound_18(18);
                }
                factor = factor * 10;
                k = k + 1;
            }
            let ghost pi = pow10(ip.len());
            let ghost pf = pow10(fp.len());
            assert(i * pf + f < pi * pf) by (nonlinear_arith)
                requires
                    i < pi,
                    f < pf,
                    pi >= 1,
            ;
            let magnitude: u64 = i * factor + f;
            let units: i64 = if neg {
                -(magnitude as i64)
            } else {
                magnitude as i64
            };
            Some(Rate { units, scale })
        },
        _ => None,
    }
}

} // verus!
