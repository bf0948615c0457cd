//! Local network discovery: address selection, ARP table parsing and peer records.
pub mod addr;
pub mod scanner;
