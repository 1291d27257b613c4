pub mod count;
pub mod forest;
pub mod quick;
pub mod union_find;
pub mod weighted_quick;
pub mod text;
pub mod laws;
pub mod paths;
