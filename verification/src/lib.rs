//! Small single-threaded containers and helpers: a generational colony,
//! object pools, a waiting lock, a bit slice with range rotation, an LRU
//! cache and a few request-routing and formatting helpers.

pub mod bits;
pub mod colony;
pub mod locallock;
pub mod localpool;
pub mod pool;
pub mod thinpool;
pub mod heappool;
pub mod lru;
pub mod rcnode;
pub mod echoip;
pub mod bath;
pub mod bithack;
pub mod par_sort;
pub mod plain;
pub mod rpc;
pub mod fft;
