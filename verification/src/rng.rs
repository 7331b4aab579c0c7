use vstd::prelude::*;

use crate::color::Color;
use rand::Rng;

verus! {

#[verifier::external_type_specification]
#[verifier::external_body]
pub struct ExXorShiftRng(rand::XorShiftRng);

/// Relies on rand's `Rng::choose`: on a non-empty slice it returns `Some` of
/// one of the slice's elements (`values[gen_range(0, values.len())]`).
#[verifier::external_body]
pub(crate) fn choose_color(prng: &mut rand::XorShiftRng, choices: &Vec<Color>) -> (r: Color)
    requires
        choices@.len() > 0,
    ensures
        choices@.contains(r),
{
    *prng.choose(choices).unwrap()
}

} // verus!
