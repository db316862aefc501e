pub mod block;
