//! Render settings and their defaults.
use vstd::prelude::*;

pub mod photon_mapping;

verus! {

/// The settings that every rendering algorithm takes, as the project gives them.
#[derive(Debug, PartialEq)]
pub struct RendererShared {
    pub threads: Option<usize>,
    pub bounces: Option<u32>,
    pub pixel_samples: u32,
    pub light_samples: Option<usize>,
    pub spectrum_samples: Option<u32>,
    pub spectrum_resolution: Option<usize>,
    pub tile_size: Option<usize>,
}

/// The settings of bidirectional path tracing.
#[derive(Debug, Clone, Copy, PartialEq, Eq, Structural)]
pub struct BidirParams {
    pub bounces: u32,
}

/// The settings of the simple path tracer.
#[derive(Debug, Clone, Copy, PartialEq, Eq, Structural)]
pub struct Config {
    pub direct_light: bool,
}

/// The rendering algorithms.
#[derive(Debug, Clone, Copy, PartialEq, Eq, Structural)]
pub enum Algorithm {
    Simple(Config),
}

/// Render settings with every default filled in.
#[derive(Debug, Clone, Copy, PartialEq, Eq, Structural)]
pub struct Renderer {
    pub threads: usize,
    pub bounces: u32,
    pub pixel_samples: u32,
    pub spectrum_samples: u32,
    pub spectrum_bins: usize,
    pub tile_size: usize,
    pub algorithm: Algorithm,
}

/// The number of worker threads when the project names none: one less than the
/// number of processors, and at least one.
pub open spec fn spec_default_threads(cpus: usize) -> usize {
    if cpus < 2 {
        1
    } else {
        (cpus - 1) as usize
    }
}

/// The settings that `shared` gives, with the default for each one it leaves out,
/// on a machine with `cpus` processors.
pub open spec fn spec_settings(shared: RendererShared, algorithm: Algorithm, cpus: usize) -> Renderer {
    Renderer {
        threads: match shared.threads {
            Some(t) => t,
            None => spec_default_threads(cpus),
        },
        bounces: match shared.bounces {
            Some(b) => b,
            None => 8,
        },
        pixel_samples: shared.pixel_samples,
        spectrum_samples: match shared.spectrum_samples {
            Some(s) => s,
            None => 10,
        },
        spectrum_bins: match shared.spectrum_resolution {
            Some(r) => r,
            None => 64,
        },
        tile_size: match shared.tile_size {
            Some(t) => t,
            None => 32,
        },
        algorithm,
    }
}

/// What a project sets is kept, and what it leaves out gets its default: 8 bounces, 10
/// spectrum samples, 64 spectrum bins, tiles of 32 pixels, and one thread less than the
/// processors, but at least one.
pub proof fn lemma_settings_kept_or_defaulted(shared: RendererShared, algorithm: Algorithm, cpus: usize)
    ensures
        ({
            let r = spec_settings(shared, algorithm, cpus);
            &&& r.threads == (match shared.threads {
                Some(t) => t,
                None => if cpus >= 2 {
                    (cpus - 1) as usize
                } else {
                    1usize
                },
            })
            &&& r.bounces == (match shared.bounces {
                Some(b) => b,
                None => 8u32,
            })
            &&& r.spectrum_samples == (match shared.spectrum_samples {
                Some(n) => n,
                None => 10u32,
            })
            &&& r.spectrum_bins == (match shared.spectrum_resolution {
                Some(n) => n,
                None => 64usize,
            })
            &&& r.tile_size == (match shared.tile_size {
                Some(n) => n,
                None => 32usize,
            })
            &&& r.pixel_samples == shared.pixel_samples
            &&& r.algorithm == algorithm
        }),
{
}

/// The number of processors that this process may run on.
///
/// Calls `num_cpus::get`, whose documentation promises a result of at least one;
/// the number itself depends on the machine and is left unsaid.
#[verifier::external_body]
fn available_processors() -> (n: usize)
    ensures
        n >= 1,
{
    num_cpus::get()
}

/// The number of worker threads when the project names none.
pub fn default_threads(cpus: usize) -> (t: usize)
    ensures
        t == spec_default_threads(cpus),
{
    let at_least_two = if cpus < 2 {
        2
    } else {
        cpus
    };
    at_least_two - 1
}

impl Renderer {
    /// The settings that `shared` gives on a machine with `cpus` processors.
    pub fn with_processors(shared: RendererShared, algorithm: Algorithm, cpus: usize) -> (r:
        Renderer)
        ensures
            r == spec_settings(shared, algorithm, cpus),
            shared.threads matches Some(t) ==> r.threads == t,
            shared.bounces matches Some(b) ==> r.bounces == b,
            shared.spectrum_samples matches Some(n) ==> r.spectrum_samples == n,
            shared.spectrum_resolution matches Some(n) ==> r.spectrum_bins == n,
            shared.tile_size matches Some(n) ==> r.tile_size == n,
            r.pixel_samples == shared.pixel_samples,
            r.algorithm == algorithm,
    {
        let threads = match shared.threads {
            Some(t) => t,
            None => default_threads(cpus),
        };
        Renderer {
            threads,
            bounces: match shared.bounces {
                Some(b) => b,
                None => 8,
            },
            pixel_samples: shared.pixel_samples,
            spectrum_samples: match shared.spectrum_samples {
                Some(s) => s,
                None => 10,
            },
            spectrum_bins: match shared.spectrum_resolution {
                Some(r) => r,
                None => 64,
            },
            tile_size: match shared.tile_size {
                Some(t) => t,
                None => 32,
            },
            algorithm,
        }
    }

    /// The settings that `shared` gives on this machine. The processors are counted only
    /// when the project names no number of threads.
    pub fn from_shared(shared: RendererShared, algorithm: Algorithm) -> (r: Renderer)
        ensures
            exists|cpus: usize| cpus >= 1 && r == spec_settings(shared, algorithm, cpus),
            shared.threads is Some ==> r == spec_settings(shared, algorithm, 1),
            r.threads >= 1 || shared.threads is Some,
            shared.threads matches Some(t) ==> r.threads == t,
            shared.bounces matches Some(b) ==> r.bounces == b,
            shared.spectrum_samples matches Some(n) ==> r.spectrum_samples == n,
            shared.spectrum_resolution matches Some(n) ==> r.spectrum_bins == n,
            shared.tile_size matches Some(n) ==> r.tile_size == n,
            r.pixel_samples == shared.pixel_samples,
            r.algorithm == algorithm,
    {
        let cpus = match shared.threads {
            Some(_) => 1,
            None => available_processors(),
        };
        Self::with_processors(shared, algorithm, cpus)
    }
}

} // verus!
