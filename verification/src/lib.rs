pub mod addr;
pub mod callback;
pub mod checksum;
pub mod connections;
pub mod direct;
pub mod dispatch;
pub mod event;
pub mod header;
pub mod laws;
pub mod listeners;
pub mod outcomes;
pub mod packet;
pub mod process;
pub mod protocol;
pub mod redirector;
pub mod renewal;
