//! The page side: how small a written page should be, the brightness levels the
//! tools suggest and apply, and the sheet of paper found in a photograph.

pub mod quality;
pub mod levels;
pub mod sheet;
pub mod picture;
pub mod grid;
pub mod rough;
