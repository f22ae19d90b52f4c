use vstd::prelude::*;

pub mod downmix;

pub use downmix::Downmix;

verus! {

} // verus!
