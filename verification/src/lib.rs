//! The verifiable core of a small sphere ray tracer: the framebuffer and its centred
//! addressing, the decisions of the visibility and shadow passes, and the image format.

use vstd::prelude::*;

pub mod plane;
pub mod ppm;
pub mod scalar;
pub mod util;
pub mod visibility;
