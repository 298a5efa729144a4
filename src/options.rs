use vstd::prelude::*;
use vstd::string::StringExecFns;
use crate::error::KmeansError;

verus! {

/// The space in which samples are clustered.
#[derive(Clone, Copy, Debug, PartialEq, Eq, Structural)]
pub enum ColorSpace {
    RGB,
    LAB,
}

/// The order in which centroids are reported.
#[derive(Clone, Copy, Debug, PartialEq, Eq, Structural)]
pub enum CentroidSort {
    /// Ascending share of the samples.
    Percentage,
    /// Ascending Lab lightness.
    Luminosity,
}

/// Cluster count used when none is given.
pub const DEFAULT_K: usize = 8;

/// Iteration cap used when none is given.
pub const DEFAULT_MAX_ITERATIONS: usize = 20;

/// Bit pattern of the single-precision value 0.0025, the default convergence
/// threshold when clustering in sRGB.
pub const RGB_CONVERGE_BITS: u32 = 0x3b23_d70a;

/// Bit pattern of the single-precision value 5.0, the default convergence
/// threshold when clustering in Lab.
pub const LAB_CONVERGE_BITS: u32 = 0x40a0_0000;

/// The colour space a tag names: `RGB`, or `LAB` / `Lab`.
pub open spec fn color_space_of(tag: Seq<char>) -> Option<ColorSpace> {
    if tag == seq!['R', 'G', 'B'] {
        Some(ColorSpace::RGB)
    } else if tag == seq!['L', 'A', 'B'] || tag == seq!['L', 'a', 'b'] {
        Some(ColorSpace::LAB)
    } else {
        None
    }
}

/// The ordering a tag names: `percentage` or `luminosity`.
pub open spec fn sort_of(tag: Seq<char>) -> Option<CentroidSort> {
    if tag == seq!['p', 'e', 'r', 'c', 'e', 'n', 't', 'a', 'g', 'e'] {
        Some(CentroidSort::Percentage)
    } else if tag == seq!['l', 'u', 'm', 'i', 'n', 'o', 's', 'i', 't', 'y'] {
        Some(CentroidSort::Luminosity)
    } else {
        None
    }
}

/// Reads a colour-space tag; an unknown tag is an error, never a default.
pub fn parse_color_space(tag: &str) -> (r: Result<ColorSpace, KmeansError>)
    ensures
        r == (match color_space_of(tag@) {
            Some(c) => Ok(c),
            None => Err(KmeansError::InvalidColorSpace),
        }),
{
    proof {
        reveal_strlit("RGB");
        reveal_strlit("LAB");
        reveal_strlit("Lab");
        assert("RGB"@ =~= seq!['R', 'G', 'B']);
        assert("LAB"@ =~= seq!['L', 'A', 'B']);
        assert("Lab"@ =~= seq!['L', 'a', 'b']);
    }
    let t = tag.to_owned();
    if t == String::from_str("RGB") {
        Ok(ColorSpace::RGB)
    } else if t == String::from_str("LAB") || t == String::from_str("Lab") {
        Ok(ColorSpace::LAB)
    } else {
        Err(KmeansError::InvalidColorSpace)
    }
}

/// Reads a sort tag; an unknown tag is an error, never a default.
pub fn parse_sort(tag: &str) -> (r: Result<CentroidSort, KmeansError>)
    ensures
        r == (match sort_of(tag@) {
            Some(s) => Ok(s),
            None => Err(KmeansError::InvalidSortKey),
        }),
{
    proof {
        reveal_strlit("percentage");
        reveal_strlit("luminosity");
        assert("percentage"@ =~= seq!['p', 'e', 'r', 'c', 'e', 'n', 't', 'a', 'g', 'e']);
        assert("luminosity"@ =~= seq!['l', 'u', 'm', 'i', 'n', 'o', 's', 'i', 't', 'y']);
    }
    let t = tag.to_owned();
    if t == String::from_str("percentage") {
        Ok(CentroidSort::Percentage)
    } else if t == String::from_str("luminosity") {
        Ok(CentroidSort::Luminosity)
    } else {
        Err(KmeansError::InvalidSortKey)
    }
}

/// The outcome of checking a cluster count against the number of samples.
pub open spec fn cluster_input_check(k: int, samples: int) -> Result<(), KmeansError> {
    if k == 0 {
        Err(KmeansError::InvalidK)
    } else if samples == 0 {
        Err(KmeansError::EmptyInput)
    } else if k > samples {
        Err(KmeansError::InvalidK)
    } else {
        Ok(())
    }
}

/// Checks that `k` clusters can be formed from `samples` samples: a zero `k`
/// is `InvalidK`, no samples is `EmptyInput`, and a `k` above the sample
/// count is `InvalidK`.
pub fn check_cluster_input(k: usize, samples: usize) -> (r: Result<(), KmeansError>)
    ensures
        r == cluster_input_check(k as int, samples as int),
{
    if k == 0 {
        Err(KmeansError::InvalidK)
    } else if samples == 0 {
        Err(KmeansError::EmptyInput)
    } else if k > samples {
        Err(KmeansError::InvalidK)
    } else {
        Ok(())
    }
}

/// Clustering options as the caller gives them, each one optional.
///
/// The convergence threshold is carried as the bit pattern of a
/// single-precision value; the library never does arithmetic on it.
#[derive(Clone, Copy, Debug, PartialEq, Eq, Structural)]
pub struct GetKmeansOptions {
    pub k: Option<usize>,
    pub max_iter: Option<usize>,
    pub converge: Option<u32>,
    pub seed: Option<u64>,
    pub color_space: Option<ColorSpace>,
    pub sort: Option<CentroidSort>,
}

/// Clustering options with every default applied and the cluster count
/// checked against the samples.
#[derive(Clone, Copy, Debug, PartialEq, Eq, Structural)]
pub struct KmeansConfig {
    pub k: usize,
    pub max_iterations: usize,
    /// Bit pattern of the single-precision convergence threshold.
    pub converge: u32,
    pub seed: u64,
    pub color_space: ColorSpace,
    pub sort: CentroidSort,
}

impl GetKmeansOptions {
    pub open spec fn spec_k(&self) -> usize {
        match self.k {
            Some(k) => k,
            None => DEFAULT_K,
        }
    }

    pub open spec fn spec_max_iterations(&self) -> usize {
        match self.max_iter {
            Some(m) => m,
            None => DEFAULT_MAX_ITERATIONS,
        }
    }

    pub open spec fn spec_color_space(&self) -> ColorSpace {
        match self.color_space {
            Some(c) => c,
            None => ColorSpace::RGB,
        }
    }

    pub open spec fn spec_converge(&self) -> u32 {
        match self.converge {
            Some(c) => c,
            None => match self.spec_color_space() {
                ColorSpace::RGB => RGB_CONVERGE_BITS,
                ColorSpace::LAB => LAB_CONVERGE_BITS,
            },
        }
    }

    pub open spec fn spec_sorting(&self) -> CentroidSort {
        match self.sort {
            Some(s) => s,
            None => CentroidSort::Percentage,
        }
    }

    pub open spec fn spec_resolved(&self, fresh: u64) -> KmeansConfig {
        KmeansConfig {
            k: self.spec_k(),
            max_iterations: self.spec_max_iterations(),
            converge: self.spec_converge(),
            seed: match self.seed {
                Some(s) => s,
                None => fresh,
            },
            color_space: self.spec_color_space(),
            sort: self.spec_sorting(),
        }
    }

    /// The cluster count; eight when none is given.
    pub fn k(&self) -> (r: usize)
        ensures
            r == self.spec_k(),
    {
        match self.k {
            Some(k) => k,
            None => DEFAULT_K,
        }
    }

    /// The iteration cap; twenty when none is given.
    pub fn max_iterations(&self) -> (r: usize)
        ensures
            r == self.spec_max_iterations(),
    {
        match self.max_iter {
            Some(m) => m,
            None => DEFAULT_MAX_ITERATIONS,
        }
    }

    /// The clustering space; sRGB when none is given.
    pub fn color_space(&self) -> (r: ColorSpace)
        ensures
            r == self.spec_color_space(),
    {
        match self.color_space {
            Some(c) => c,
            None => ColorSpace::RGB,
        }
    }

    /// The convergence threshold's bit pattern; when none is given, 0.0025
    /// for sRGB and 5.0 for Lab.
    pub fn converge(&self) -> (r: u32)
        ensures
            r == self.spec_converge(),
    {
        match self.converge {
            Some(c) => c,
            None => match self.color_space() {
                ColorSpace::RGB => RGB_CONVERGE_BITS,
                ColorSpace::LAB => LAB_CONVERGE_BITS,
            },
        }
    }

    /// The ordering of the output; by percentage when none is given.
    pub fn sorting(&self) -> (r: CentroidSort)
        ensures
            r == self.spec_sorting(),
    {
        match self.sort {
            Some(s) => s,
            None => CentroidSort::Percentage,
        }
    }

    /// The seed for the initial centroids: the given one, or else `fresh`,
    /// which the caller draws from a source of randomness.
    pub fn seed(&self, fresh: u64) -> (r: u64)
        ensures
            r == match self.seed {
                Some(s) => s,
                None => fresh,
            },
    {
        match self.seed {
            Some(s) => s,
            None => fresh,
        }
    }

    /// Applies every default and checks the cluster count against the
    /// number of samples; `fresh` is the seed used when none is given.
    pub fn resolve(&self, samples: usize, fresh: u64) -> (r: Result<KmeansConfig, KmeansError>)
        ensures
            r == match cluster_input_check(self.spec_k() as int, samples as int) {
                Err(e) => Err(e),
                Ok(_) => Ok(self.spec_resolved(fresh)),
            },
    {
        let k = self.k();
        match check_cluster_input(k, samples) {
            Err(e) => Err(e),
            Ok(()) => Ok(KmeansConfig {
                k,
                max_iterations: self.max_iterations(),
                converge: self.converge(),
                seed: self.seed(fresh),
                color_space: self.color_space(),
                sort: self.sorting(),
            }),
        }
    }
}

} // verus!
