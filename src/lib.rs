//! Disk-backed Buddhabrot histograms: the orbit engine, region-buffered
//! counter updates, the on-disk counter format, sample sectioning and the
//! progress counter.

pub mod codec;
pub mod eta;
pub mod raster;
pub mod orbit;
pub mod pipeline;
pub mod regions;
pub mod sections;
pub mod vec;
