//! The world that a program runs in.
use vstd::prelude::*;

use crate::vm::platform::{is_past, Gpu, Platform};

verus! {

/// The world that a program sees: its arguments, and a GPU where there is one to reach.
pub struct Host<P: Platform> {
    pub argv: Vec<String>,
    pub gpu: Option<Gpu<P>>,
}

/// The world of a program with these arguments, and of this machine's platform, where it has
/// one, which has made nothing yet.
pub fn host<P: Platform>(argv: Vec<String>, platform: Option<P>) -> (h: Host<P>)
    requires
        match platform {
            Some(p) => is_past(&p, 0),
            None => true,
        },
    ensures
        h.argv == argv,
        match platform {
            Some(p) => h.gpu == Some(Gpu { platform: p, last: 0 }) && h.gpu->0.ok(),
            None => h.gpu is None,
        },
{
    let gpu = match platform {
        Some(p) => Some(Gpu::new(p)),
        None => None,
    };
    Host { argv, gpu }
}

} // verus!
