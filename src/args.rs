use crate::error::SiftError;
use vstd::prelude::*;

verus! {

/// Options of the depth command: an annotation file and an output prefix.
#[derive(Debug)]
pub struct DepthArgs {
    pub gff: String,
    pub output: String,
}

/// Options of the aggregate command: an annotation file and an output
/// prefix.
#[derive(Debug)]
pub struct AggArgs {
    pub gff: String,
    pub output: String,
}

/// The depth command; it has nothing to do yet and always succeeds.
pub fn run_depth(args: &DepthArgs) -> (r: Result<(), SiftError>)
    ensures
        r is Ok,
{
    Ok(())
}

/// The aggregate command; it has nothing to do yet and always succeeds.
pub fn run_agg(args: &AggArgs) -> (r: Result<(), SiftError>)
    ensures
        r is Ok,
{
    Ok(())
}

} // verus!
