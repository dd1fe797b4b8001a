pub mod canvas;
pub mod horizontal;
pub mod layout;
pub mod style;
pub mod tree_node;
pub mod vertical;
