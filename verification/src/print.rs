//! Printing: printers, print jobs, and the documents they become.
pub mod pdf;
pub mod spooler;
