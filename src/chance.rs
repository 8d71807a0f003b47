use vstd::prelude::*;

verus! {

/// A probability held exactly as a ratio `numerator / denominator`.
#[derive(Clone, Copy, Debug, PartialEq, Eq)]
pub struct Chance {
    numerator: u32,
    denominator: u32,
}

/// A ratio that is not a probability: a zero denominator, or a numerator
/// above the denominator.
#[derive(Clone, Copy, Debug, PartialEq, Eq)]
pub enum ChanceError {
    InvalidProbability,
}

/// Relies on `rand::Rng::gen_ratio` on the thread-local generator, which
/// samples a Bernoulli distribution built by `Bernoulli::from_ratio`: it never
/// comes out true for a zero numerator and always does when numerator and
/// denominator are equal. It panics on a zero denominator or a numerator above
/// the denominator.
#[verifier::external_body]
fn gen_ratio(numerator: u32, denominator: u32) -> (r: bool)
    requires
        0 < denominator,
        numerator <= denominator,
    ensures
        numerator == 0 ==> !r,
        numerator == denominator ==> r,
{
    rand::Rng::gen_ratio(&mut rand::thread_rng(), numerator, denominator)
}

impl Chance {
    /// The probability as a ratio of two integers.
    pub closed spec fn numerator_spec(self) -> nat {
        self.numerator as nat
    }

    pub closed spec fn denominator_spec(self) -> nat {
        self.denominator as nat
    }

    /// The ratio stands for a probability in `[0, 1]`.
    pub open spec fn wf(self) -> bool {
        0 < self.denominator_spec() && self.numerator_spec() <= self.denominator_spec()
    }

    /// The event never happens.
    pub open spec fn is_never(self) -> bool {
        self.numerator_spec() == 0
    }

    /// The event always happens.
    pub open spec fn is_always(self) -> bool {
        self.numerator_spec() == self.denominator_spec()
    }

    /// Builds the probability `numerator / denominator`; fails unless that
    /// ratio lies in `[0, 1]`.
    pub fn new(numerator: u32, denominator: u32) -> (r: Result<Chance, ChanceError>)
        ensures
            r is Ok <==> (0 < denominator && numerator <= denominator),
            r matches Ok(c) ==> c.wf() && c.numerator_spec() == numerator
                && c.denominator_spec() == denominator,
    {
        if denominator == 0 || numerator > denominator {
            Err(ChanceError::InvalidProbability)
        } else {
            Ok(Chance { numerator, denominator })
        }
    }

    /// The probability zero.
    pub fn never() -> (r: Chance)
        ensures
            r.wf(),
            r.is_never(),
    {
        Chance { numerator: 0, denominator: 1 }
    }

    /// The probability one.
    pub fn always() -> (r: Chance)
        ensures
            r.wf(),
            r.is_always(),
    {
        Chance { numerator: 1, denominator: 1 }
    }

    pub fn numerator(&self) -> (r: u32)
        ensures
            r == self.numerator_spec(),
    {
        self.numerator
    }

    pub fn denominator(&self) -> (r: u32)
        ensures
            r == self.denominator_spec(),
    {
        self.denominator
    }

    /// One Bernoulli trial with this probability, drawn from the thread-local
    /// generator.
    pub fn sample(&self) -> (r: bool)
        requires
            self.wf(),
        ensures
            self.is_never() ==> !r,
            self.is_always() ==> r,
    {
        gen_ratio(self.numerator, self.denominator)
    }
}

} // verus!
