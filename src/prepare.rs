use vstd::prelude::*;
use crate::error::KmeansError;
use crate::options::{cluster_input_check, GetKmeansOptions, KmeansConfig};
use crate::sampler::{sample_rgba, samples_of, Rgb8};

verus! {

/// Everything that is checked before clustering starts: the buffer is
/// sampled, then the options are resolved against the number of samples.
/// A malformed buffer is `UnsupportedSource`; otherwise the errors are those
/// of `GetKmeansOptions::resolve`. Nothing is returned on failure.
pub fn prepare(
    pixels: &Vec<u8>,
    width: usize,
    height: usize,
    options: &GetKmeansOptions,
    fresh: u64,
) -> (r: Result<(Vec<Rgb8>, KmeansConfig), KmeansError>)
    ensures
        4 * width * height != pixels@.len() ==> r == Err::<(Vec<Rgb8>, KmeansConfig), KmeansError>(KmeansError::UnsupportedSource),
        4 * width * height == pixels@.len() ==> {
            let samples = samples_of(pixels@, width as int, height as int);
            match cluster_input_check(options.spec_k() as int, samples.len() as int) {
                Err(e) => r == Err::<(Vec<Rgb8>, KmeansConfig), KmeansError>(e),
                Ok(_) => (r matches Ok((v, c)) && v@ == samples && c == options.spec_resolved(fresh)),
            }
        },
{
    let samples = match sample_rgba(pixels, width, height) {
        Ok(s) => s,
        Err(e) => return Err(e),
    };
    match options.resolve(samples.len(), fresh) {
        Ok(config) => Ok((samples, config)),
        Err(e) => Err(e),
    }
}

} // verus!
