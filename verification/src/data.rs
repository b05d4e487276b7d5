pub mod sparse_set;
