pub mod bitmap;
pub mod infix_store;
pub mod partial_key;
pub mod diva;
pub mod binary_search_tree;
