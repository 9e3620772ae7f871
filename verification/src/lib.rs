//! Province outlines from a colour-coded map image.
//!
//! A map image paints every province in one flat colour on a grey sea. The
//! crate finds the pixels on each province's edge, groups them by colour,
//! names the groups through a colour table, orders each group into a closed
//! outline, and tells whether a position lies inside such an outline.

pub mod border;
pub mod border_laws;
pub mod color;
pub mod contain;
pub mod contain_laws;
pub mod key;
pub mod order;
pub mod outline_laws;
pub mod point;
pub mod province;
pub mod province_laws;
pub mod raster;
pub mod sequence;
pub mod table;
