pub mod binary_search_tree;
pub mod order;
pub mod treap;
pub mod union_find;
