pub mod unique;
pub mod frequency;
pub mod split;
pub mod to;
pub mod slice;
