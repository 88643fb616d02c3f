use vstd::prelude::*;

pub mod frame;
pub mod raster;
pub mod event_loop;

verus! {

} // verus!
