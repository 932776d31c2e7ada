//! The dice that terrain generation and wandering draw from.

use vstd::prelude::*;
use bracket_lib::prelude::RandomNumberGenerator;

verus! {

/// bracket-lib's dice roller, carried through as an opaque value.
#[verifier::external_type_specification]
#[verifier::external_body]
pub struct ExRandomNumberGenerator(RandomNumberGenerator);

/// `RandomNumberGenerator::roll_dice` adds up `n` draws, each between 1 and
/// `die_type`, so the sum lies between `n` and `n * die_type`. Which sum comes
/// out depends on the generator; nothing is claimed of it beyond that range.
/// A die with no face makes the draw panic, and so is left out.
pub assume_specification[ RandomNumberGenerator::roll_dice ](
    rng: &mut RandomNumberGenerator,
    n: i32,
    die_type: i32,
) -> (sum: i32)
    requires
        0 <= n,
        1 <= die_type < i32::MAX,
        n * die_type <= i32::MAX,
    ensures
        n <= sum <= n * die_type,
;

} // verus!
