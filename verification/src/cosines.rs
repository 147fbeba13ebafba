//! The cosines that a move is computed from.

use vstd::prelude::*;

use crate::single::Single;

verus! {

/// The values in `cosines` are ones that a cosine can take.
pub open spec fn are_cosines(cosines: Seq<Single>) -> bool {
    forall|i: int| 0 <= i < cosines.len() ==> crate::curve::is_cosine((#[trigger] cosines[i])@)
}

/// The cosines fall from step to step.
pub open spec fn are_falling(cosines: Seq<Single>) -> bool {
    forall|i: int, j: int|
        0 <= i <= j < cosines.len() ==> (#[trigger] cosines[j])@.place() <= (
        #[trigger] cosines[i])@.place()
}

/// All cosines but the last one are cosines too.
pub proof fn lemma_cosines_before(cosines: Seq<Single>)
    requires
        cosines.len() > 0,
        are_cosines(cosines),
    ensures
        are_cosines(cosines.drop_last()),
{
    let before = cosines.drop_last();
    assert forall|i: int| 0 <= i < before.len() implies crate::curve::is_cosine(
        (#[trigger] before[i])@,
    ) by {
        assert(before[i] == cosines[i]);
    }
}

/// Whether `value` is one that a cosine can take.
fn is_cosine(value: Single) -> (b: bool)
    ensures
        b == crate::curve::is_cosine(value@),
{
    let one: Single = Single::ratio(1, 1);
    let two: Single = Single::ratio(2, 1);
    proof {
        crate::curve::lemma_whole(1);
        crate::curve::lemma_whole(2);
        assert(1 * crate::number::Number::one() == crate::number::Number::one());
        vstd::arithmetic::power2::lemma_pow2_pos(149);
    }
    value.below(two) && !one.below(value) && !value.below(one.negated())
}

/// The cosines of the phases of a move, one for each step. Each lies between -1 and 1.
pub struct Cosines {
    values: Vec<Single>,
}

impl View for Cosines {
    type V = Seq<Single>;

    closed spec fn view(&self) -> Seq<Single> {
        self.values@
    }
}

impl Cosines {
    /// Each value is one that a cosine can take.
    #[verifier::type_invariant]
    pub open spec fn valid(self) -> bool {
        are_cosines(self@)
    }

    /// The given values, if a cosine can take every one of them.
    pub fn new(values: Vec<Single>) -> (r: Option<Cosines>)
        ensures
            r is Some <==> are_cosines(values@),
            r is Some <==> forall|i: int|
                0 <= i < values@.len() ==> (#[trigger] values@[i])@ is Finite
                    && -crate::number::Number::one() <= values@[i]@.place()
                    <= crate::number::Number::one(),
            r matches Some(cosines) ==> cosines@ == values@,
    {
        let mut i: usize = 0;
        while i < values.len()
            invariant
                i <= values@.len(),
                are_cosines(values@.take(i as int)),
            decreases values@.len() - i,
        {
            if !is_cosine(values[i]) {
                assert(!crate::curve::is_cosine(values@[i as int]@));
                return None;
            }
            assert(are_cosines(values@.take(i + 1))) by {
                assert forall|j: int| 0 <= j < i + 1 implies crate::curve::is_cosine(
                    (#[trigger] values@.take(i + 1)[j])@,
                ) by {
                    if j < i {
                        assert(values@.take(i as int)[j] == values@[j]);
                    }
                }
            }
            i = i + 1;
        }
        assert(values@.take(i as int) =~= values@);
        Some(Cosines { values })
    }

    /// How many there are.
    pub fn len(&self) -> (n: usize)
        ensures
            n == self@.len(),
    {
        self.values.len()
    }

    /// The one of step `i`.
    pub fn at(&self, i: usize) -> (cosine: Single)
        requires
            i < self@.len(),
        ensures
            cosine == self@[i as int],
    {
        self.values[i]
    }
}

} // verus!
