pub mod app_state;
pub mod binary_heap;
pub mod btree;
pub mod clock;
pub mod error;
pub mod helpers;
pub mod index;
pub mod key;
pub mod mempool;
pub mod model;
pub mod ordered_vec;
pub mod protocol;
pub mod reservations;
pub mod skiplist;
pub mod transaction;
