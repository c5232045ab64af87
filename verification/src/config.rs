use vstd::prelude::*;

verus! {

use crate::extent::ImageExtent2D;

/// A configuration the tracer cannot run with, rejected before anything is
/// built.
#[derive(Clone, Copy, PartialEq, Eq, Structural, Debug)]
pub enum ConfigError {
    /// No rays per pixel were configured.
    NoRays,
    /// No worker threads were configured.
    NoThreads,
    /// The extent holds more pixels than this machine addresses.
    ExtentTooLarge,
}

/// Checks a tracer configuration before the tracer is assembled: sampling
/// needs at least one ray per pixel, the round loop at least one thread, and
/// the extent a pixel count that fits a machine word. The first offending
/// setting names the error.
pub fn validate_config(n_rays: u32, n_threads: u32, width: u32, height: u32) -> (r: Result<
    ImageExtent2D,
    ConfigError,
>)
    ensures
        r is Ok <==> n_rays > 0 && n_threads > 0 && (width as int) * (height as int)
            <= usize::MAX,
        r is Ok ==> r == Result::<ImageExtent2D, ConfigError>::Ok(
            (ImageExtent2D { width, height }),
        ) && (ImageExtent2D { width, height }).wf(),
        n_rays == 0 ==> r == Result::<ImageExtent2D, ConfigError>::Err(ConfigError::NoRays),
        n_rays > 0 && n_threads == 0 ==> r == Result::<ImageExtent2D, ConfigError>::Err(
            ConfigError::NoThreads,
        ),
        n_rays > 0 && n_threads > 0 && (width as int) * (height as int) > usize::MAX ==> r
            == Result::<ImageExtent2D, ConfigError>::Err(ConfigError::ExtentTooLarge),
{
    if n_rays == 0 {
        return Result::Err(ConfigError::NoRays);
    }
    if n_threads == 0 {
        return Result::Err(ConfigError::NoThreads);
    }
    let w = width as u64;
    let h = height as u64;
    proof {
        assert((w as int) * (h as int) < 0x1_0000_0000_0000_0000) by (nonlinear_arith)
            requires
                0 <= (w as int) < 0x1_0000_0000,
                0 <= (h as int) < 0x1_0000_0000,
        ;
    }
    if w * h > usize::MAX as u64 {
        return Result::Err(ConfigError::ExtentTooLarge);
    }
    Result::Ok(ImageExtent2D::new(width, height))
}

} // verus!
