//! Rendering of scaled values back to fixed-point decimal text, and the
//! rounded mean of an entry's statistics.

use vstd::prelude::*;
use crate::parse::is_valid_temp;
use crate::parse::temp_value;

verus! {

/// Digits of a magnitude `0 <= a <= 999`: the value divided by ten, a
/// dot, and the last digit.
pub open spec fn render_mag(a: int) -> Seq<u8> {
    if a >= 100 {
        seq![
            (48 + a / 100) as u8,
            (48 + (a / 10) % 10) as u8,
            46u8,
            (48 + a % 10) as u8,
        ]
    } else {
        seq![(48 + a / 10) as u8, 46u8, (48 + a % 10) as u8]
    }
}

/// A scaled value rendered as decimal text with one fractional digit.
pub open spec fn render_spec(v: int) -> Seq<u8> {
    if v < 0 {
        seq![45u8] + render_mag(-v)
    } else {
        render_mag(v)
    }
}

/// Round trip: rendering a scaled value yields a string of the value
/// grammar that parses back to the same scaled value.
pub proof fn lemma_render_round_trip(v: int)
    requires
        -999 <= v <= 999,
    ensures
        is_valid_temp(render_spec(v)),
        temp_value(render_spec(v)) == v,
{
    let a = if v < 0 {
        -v
    } else {
        v
    };
    assert(a == 100 * (a / 100) + 10 * ((a / 10) % 10) + a % 10) by {
        assert(a == 10 * (a / 10) + a % 10);
        assert(a / 10 == 10 * ((a / 10) / 10) + (a / 10) % 10);
        assert((a / 10) / 10 == a / 100) by (nonlinear_arith);
    }
    if v < 0 {
        assert(render_spec(v).skip(1) =~= render_mag(a));
    }
}

/// Renders a scaled value; the result is exactly `render_spec` of it.
pub fn render_temp(v: i16) -> (r: Vec<u8>)
    requires
        -999 <= v <= 999,
    ensures
        r@ == render_spec(v as int),
        is_valid_temp(r@),
        temp_value(r@) == v as int,
{
    proof {
        lemma_render_round_trip(v as int);
    }
    let mut out: Vec<u8> = Vec::new();
    let a: u16 = if v < 0 {
        (-v) as u16
    } else {
        v as u16
    };
    if v < 0 {
        out.push(45);
    }
    if a >= 100 {
        out.push(48 + (a / 100) as u8);
        out.push(48 + ((a / 10) % 10) as u8);
    } else {
        out.push(48 + (a / 10) as u8);
    }
    out.push(46);
    out.push(48 + (a % 10) as u8);
    proof {
        assert(out@ =~= render_spec(v as int));
    }
    out
}

/// The mean of a sum over a count, scaled, rounded to the nearest integer
/// with halves away from zero.
pub open spec fn mean_scaled(sum: int, count: int) -> int {
    if sum >= 0 {
        (sum + count / 2) / count
    } else {
        -((-sum + count / 2) / count)
    }
}

/// A rounded mean of in-range observations stays in range.
pub proof fn lemma_mean_range(sum: int, count: int)
    requires
        1 <= count,
        -999 * count <= sum <= 999 * count,
    ensures
        -999 <= mean_scaled(sum, count) <= 999,
{
    let a = if sum >= 0 {
        sum
    } else {
        -sum
    };
    assert(a + count / 2 < 1000 * count);
    assert(0 <= (a + count / 2) / count < 1000) by (nonlinear_arith)
        requires
            count >= 1,
            0 <= a + count / 2 < 1000 * count,
    ;
}

/// Renders the mean of an entry's statistics with one fractional digit.
pub fn render_mean(sum: i128, count: u64) -> (r: Vec<u8>)
    requires
        1 <= count,
        -999 * (count as int) <= sum as int <= 999 * (count as int),
    ensures
        r@ == render_spec(mean_scaled(sum as int, count as int)),
{
    proof {
        lemma_mean_range(sum as int, count as int);
    }
    let c = count as u128;
    let mag: u128 = if sum >= 0 {
        sum as u128
    } else {
        (-sum) as u128
    };
    let q = (mag + c / 2) / c;
    proof {
        let qi = q as int;
        let ci = c as int;
        let mi = mag as int;
        assert(qi <= 999) by (nonlinear_arith)
            requires
                ci >= 1,
                mi + ci / 2 < 1000 * ci,
                qi == (mi + ci / 2) / ci,
        ;
    }
    let m = q as i16;
    let r = if sum >= 0 {
        m
    } else {
        -m
    };
    render_temp(r)
}

} // verus!
