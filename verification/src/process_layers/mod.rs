pub mod join_layer;
pub mod ord_match_layer;
pub mod parse_layer;
pub mod pipeline;
