//! One statement for every weight format.
//!
//! A weight arrives as bytes and the name of its storage type. What is done with it is the same
//! whatever the type, so a job is written once over any stored format and run for the one named.
use vstd::prelude::*;
use crate::arith::{Brain, Half, Real, lawful};
use crate::blocks::GgmlDType;
use crate::float::Single;
use crate::format::iq2_xxs::BlockIq2Xxs;
use crate::format::mxfp4::BlockMxFp4;
use crate::format::q2_k::BlockQ2K;
use crate::format::q3_k::BlockQ3K;
use crate::format::q4_0::BlockQ4_0;
use crate::format::q4_1::BlockQ4_1;
use crate::format::q4_k::BlockQ4K;
use crate::format::q5_0::BlockQ5_0;
use crate::format::q5_1::BlockQ5_1;
use crate::format::q5_k::BlockQ5K;
use crate::format::q6_k::BlockQ6K;
use crate::format::q8_0::BlockQ8_0;
use crate::format::q8_k::BlockQ8K;
use crate::layout::Stored;

verus! {

/// Something to be done with a weight.
pub trait Work<R: Real>: Sized {
    type Out;
}

/// The work over weights of the format `T`.
pub trait Job<R: Real, T: Stored<R>>: Work<R> {
    /// What the work owes over the format `T`.
    spec fn owes(self, out: <Self as Work<R>>::Out) -> bool;

    fn run(&self) -> (out: <Self as Work<R>>::Out)
        requires
            lawful::<R>(),
        ensures
            self.owes(out),
    ;
}

/// Work that can be done over every weight format.
pub trait Everywhere<R: Real>: Job<R, Single<R>>
    + Job<R, Half>
    + Job<R, Brain>
    + Job<R, BlockQ4_0>
    + Job<R, BlockQ4_1>
    + Job<R, BlockQ5_0>
    + Job<R, BlockQ5_1>
    + Job<R, BlockQ8_0>
    + Job<R, BlockQ2K>
    + Job<R, BlockQ3K>
    + Job<R, BlockQ4K>
    + Job<R, BlockQ5K>
    + Job<R, BlockQ6K>
    + Job<R, BlockQ8K<R>>
    + Job<R, BlockMxFp4>
    + Job<R, BlockIq2Xxs> {

}

impl<R: Real, J> Everywhere<R> for J where
    J: Job<R, Single<R>>
    + Job<R, Half>
    + Job<R, Brain>
    + Job<R, BlockQ4_0>
    + Job<R, BlockQ4_1>
    + Job<R, BlockQ5_0>
    + Job<R, BlockQ5_1>
    + Job<R, BlockQ8_0>
    + Job<R, BlockQ2K>
    + Job<R, BlockQ3K>
    + Job<R, BlockQ4K>
    + Job<R, BlockQ5K>
    + Job<R, BlockQ6K>
    + Job<R, BlockQ8K<R>>
    + Job<R, BlockMxFp4>
    + Job<R, BlockIq2Xxs>
{

}

/// What the work owes over the format `dtype` names; nothing, where it names no weight format.
pub open spec fn owed<R: Real, J: Everywhere<R>>(dtype: GgmlDType, job: J, out: <J as Work<R>>::Out) -> bool {
    match dtype {
        GgmlDType::F32 => <J as Job<R, Single<R>>>::owes(job, out),
        GgmlDType::F16 => <J as Job<R, Half>>::owes(job, out),
        GgmlDType::BF16 => <J as Job<R, Brain>>::owes(job, out),
        GgmlDType::Q4_0 => <J as Job<R, BlockQ4_0>>::owes(job, out),
        GgmlDType::Q4_1 => <J as Job<R, BlockQ4_1>>::owes(job, out),
        GgmlDType::Q5_0 => <J as Job<R, BlockQ5_0>>::owes(job, out),
        GgmlDType::Q5_1 => <J as Job<R, BlockQ5_1>>::owes(job, out),
        GgmlDType::Q8_0 => <J as Job<R, BlockQ8_0>>::owes(job, out),
        GgmlDType::Q2K => <J as Job<R, BlockQ2K>>::owes(job, out),
        GgmlDType::Q3K => <J as Job<R, BlockQ3K>>::owes(job, out),
        GgmlDType::Q4K => <J as Job<R, BlockQ4K>>::owes(job, out),
        GgmlDType::Q5K => <J as Job<R, BlockQ5K>>::owes(job, out),
        GgmlDType::Q6K => <J as Job<R, BlockQ6K>>::owes(job, out),
        GgmlDType::Q8K => <J as Job<R, BlockQ8K<R>>>::owes(job, out),
        GgmlDType::MxFp4 => <J as Job<R, BlockMxFp4>>::owes(job, out),
        GgmlDType::Iq2Xxs => <J as Job<R, BlockIq2Xxs>>::owes(job, out),
        GgmlDType::Q8_1 => true,
    }
}

/// Whether the engine takes weights of this type: everything but the one type that only ever
/// holds activations.
pub fn supports(dtype: GgmlDType) -> (r: bool)
    ensures
        r == (dtype != GgmlDType::Q8_1),
{
    !matches!(dtype, GgmlDType::Q8_1)
}

/// Run a job over the format `dtype` names.
pub fn with_blocks<R: Real, J: Everywhere<R>>(dtype: GgmlDType, job: &J) -> (r: Option<<J as Work<R>>::Out>)
    requires
        lawful::<R>(),
    ensures
        r is Some <==> dtype != GgmlDType::Q8_1,
        r matches Some(out) ==> owed::<R, J>(dtype, *job, out),
{
    match dtype {
        GgmlDType::F32 => Some(<J as Job<R, Single<R>>>::run(job)),
        GgmlDType::F16 => Some(<J as Job<R, Half>>::run(job)),
        GgmlDType::BF16 => Some(<J as Job<R, Brain>>::run(job)),
        GgmlDType::Q4_0 => Some(<J as Job<R, BlockQ4_0>>::run(job)),
        GgmlDType::Q4_1 => Some(<J as Job<R, BlockQ4_1>>::run(job)),
        GgmlDType::Q5_0 => Some(<J as Job<R, BlockQ5_0>>::run(job)),
        GgmlDType::Q5_1 => Some(<J as Job<R, BlockQ5_1>>::run(job)),
        GgmlDType::Q8_0 => Some(<J as Job<R, BlockQ8_0>>::run(job)),
        GgmlDType::Q2K => Some(<J as Job<R, BlockQ2K>>::run(job)),
        GgmlDType::Q3K => Some(<J as Job<R, BlockQ3K>>::run(job)),
        GgmlDType::Q4K => Some(<J as Job<R, BlockQ4K>>::run(job)),
        GgmlDType::Q5K => Some(<J as Job<R, BlockQ5K>>::run(job)),
        GgmlDType::Q6K => Some(<J as Job<R, BlockQ6K>>::run(job)),
        GgmlDType::Q8K => Some(<J as Job<R, BlockQ8K<R>>>::run(job)),
        GgmlDType::MxFp4 => Some(<J as Job<R, BlockMxFp4>>::run(job)),
        GgmlDType::Iq2Xxs => Some(<J as Job<R, BlockIq2Xxs>>::run(job)),
        GgmlDType::Q8_1 => None,
    }
}

} // verus!
