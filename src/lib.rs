pub mod component;
pub mod components;
pub mod entities;
pub mod handle;
pub mod storage;
pub mod scheduler;
