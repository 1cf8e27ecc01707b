pub mod count;
pub mod sketch;
pub mod gauge;
pub mod striped_map;
