//! Shares of sizes as percentages. They are worked out in single precision.
use vstd::prelude::*;

use crate::decimals::{percent, rounded, Precision};
use crate::text::{push_decimal_wide, push_hundredths};

verus! {

use crate::decimals::{
    float_of, law_finer_shares_agree, law_single_floats_are_close, law_single_share_is_part_of_whole, percent_of,
};
use crate::text::{decimal, two_decimals};

/// What `part` is of `whole`, as a percentage in parts of which `scale` make one percent. Of nothing
/// everything is nothing.
pub open spec fn share(part: u64, whole: u64, scale: nat) -> nat {
    if whole == 0 {
        0
    } else {
        percent_of(
            float_of(part as nat, Precision::Single),
            float_of(whole as nat, Precision::Single),
            Precision::Single,
            scale,
        )
    }
}

fn share_of(part: u64, whole: u64, scale: u128) -> (r: u128)
    requires
        scale <= 100,
    ensures
        r == share(part, whole, scale as nat),
{
    if whole == 0 {
        return 0;
    }
    percent(
        rounded(part as u128, Precision::Single),
        rounded(whole as u128, Precision::Single),
        Precision::Single,
        scale,
    )
}

/// A share with two decimals, as in "12.34%".
pub fn share_text(part: u64, whole: u64) -> (r: String)
    ensures
        r@ == two_decimals(share(part, whole, 100)) + "%"@,
{
    let mut out = String::new();
    push_hundredths(&mut out, share_of(part, whole, 100));
    out.append("%");
    assert(out@ =~= two_decimals(share(part, whole, 100)) + "%"@);
    out
}

/// A share with one decimal, as in "12.3%".
pub fn short_share_text(part: u64, whole: u64) -> (r: String)
    ensures
        r@ == decimal(share(part, whole, 10) / 10) + "."@ + decimal(share(part, whole, 10) % 10) + "%"@,
{
    let n: u128 = share_of(part, whole, 10);
    let mut out = String::new();
    push_decimal_wide(&mut out, n / 10);
    out.append(".");
    push_decimal_wide(&mut out, n % 10);
    out.append("%");
    assert(out@ =~= decimal(share(part, whole, 10) / 10) + "."@ + decimal(share(part, whole, 10) % 10) + "%"@);
    out
}

/// Whether `part` is no less than `whole` as far as single precision can tell.
pub open spec fn is_all(part: u64, whole: u64) -> bool {
    float_of(part as nat, Precision::Single) >= float_of(whole as nat, Precision::Single)
}

/// How full something is, in whole percent and never more than all of it, as in "12%".
pub fn fullness_text(part: u64, whole: u64) -> (r: String)
    requires
        whole > 0,
    ensures
        r@ == if is_all(part, whole) {
            "100%"@
        } else {
            decimal(share(part, whole, 1)) + "%"@
        },
{
    let mut out = String::new();
    if rounded(part as u128, Precision::Single) >= rounded(whole as u128, Precision::Single) {
        out.append("100%");
        assert(out@ =~= "100%"@);
        return out;
    }
    push_decimal_wide(&mut out, share_of(part, whole, 1));
    out.append("%");
    assert(out@ =~= decimal(share(part, whole, 1)) + "%"@);
    out
}

/// A share with two decimals is 100 times the part divided by the whole, rounded to the nearest
/// hundredth of a percent, but for what single precision loses; of nothing everything is nothing.
pub proof fn law_share_text_shows_part_of_whole(part: u64, whole: u64)
    requires
        part <= whole,
    ensures
        whole == 0 ==> share(part, whole, 100) == 0,
        whole > 0 ==> ({
            let h = share(part, whole, 100);
            &&& 100 * ((2 * h - 1) * whole) <= 100 * (20_000 * part) + whole
            &&& 100 * (20_000 * part) <= 100 * ((2 * h + 1) * whole) + whole
        }),
{
    if whole > 0 {
        law_single_share_is_part_of_whole(part as nat, whole as nat);
    }
}


/// Shares with one decimal and in whole percent are those with two decimals, rounded.
pub proof fn law_shorter_shares_agree(part: u64, whole: u64)
    requires
        0 < part,
        0 < whole,
    ensures
        -5 <= 10 * share(part, whole, 10) - share(part, whole, 100) <= 5,
        -50 <= 100 * share(part, whole, 1) - share(part, whole, 100) <= 50,
{
    let num = float_of(part as nat, Precision::Single);
    let den = float_of(whole as nat, Precision::Single);
    law_single_floats_are_close(part as nat);
    law_single_floats_are_close(whole as nat);
    law_finer_shares_agree(num, den, Precision::Single, 10, 10);
    law_finer_shares_agree(num, den, Precision::Single, 1, 100);
}

} // verus!
