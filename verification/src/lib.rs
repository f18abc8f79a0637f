//! Port scanning, packet capture and pcap analysis: the verified core.

pub mod text;
pub mod parser;
pub mod stats;
pub mod table;
pub mod scanner;
pub mod netif;
pub mod capture;
pub mod capture_engine;
pub mod gui;
pub mod report;
