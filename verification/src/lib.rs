pub mod ata;
pub mod audit;
pub mod benchmark;
pub mod block;
pub mod block_cache;
pub mod block_io;
pub mod capability;
pub mod console;
pub mod device;
pub mod elf;
pub mod fat32;
pub mod file_frames;
pub mod file_mapping;
pub mod frontend;
pub mod gpt;
pub mod graphics;
pub mod heap;
pub mod gui;
pub mod hal;
pub mod interrupts;
pub mod ipc;
pub mod keyboard;
pub mod memory;
pub mod network;
pub mod page_cache;
pub mod paging;
pub mod partition;
pub mod pic;
pub mod pipe;
pub mod shell;
pub mod smp;
pub mod storage;
pub mod swap;
pub mod syscall;
pub mod task;
