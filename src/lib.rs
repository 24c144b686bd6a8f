//! Core of a small x86-64 kernel: physical frame allocation, heap window
//! mapping, three heap allocation strategies, interrupt bookkeeping, the
//! scancode bridge between interrupt and normal context, and a cooperative
//! task executor.
pub mod interrupts;
pub mod memory;
pub mod port;
pub mod task;
pub mod vga;
