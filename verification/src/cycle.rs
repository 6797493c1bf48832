use vstd::prelude::*;

verus! {

/// The place of a year in the cycle of two hundred years that starts with
/// 2022: a number under 200.
pub open spec fn cycle_of(year: int) -> int {
    (year - 2022) % 200
}

/// The place of a year in the cycle of two hundred years that starts with
/// 2022.
pub fn year_in_cycle(year: i32) -> (r: u32)
    ensures
        r == cycle_of(year as int),
{
    let since: i64 = year as i64 - 2022;
    if since >= 0 {
        (since % 200) as u32
    } else {
        let back: i64 = (-since) % 200;
        assert((since as int) % 200 == if back == 0 {
            0
        } else {
            200 - back
        }) by {
            assert(since as int == -200 * ((-since) as int / 200) - back);
            if back == 0 {
                vstd::arithmetic::div_mod::lemma_fundamental_div_mod_converse(
                    since as int,
                    200,
                    -((-since) as int / 200),
                    0,
                );
            } else {
                vstd::arithmetic::div_mod::lemma_fundamental_div_mod_converse(
                    since as int,
                    200,
                    -((-since) as int / 200) - 1,
                    200 - back,
                );
            }
        }
        if back == 0 {
            0
        } else {
            (200 - back) as u32
        }
    }
}

} // verus!
