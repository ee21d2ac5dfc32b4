# wovenhat

The logic of a small x86_64 hobby kernel, written in Verus and proved against
its contracts: the FAT32 driver and its path operations, GPT and partition
views, the block and page caches, swap, the frame allocator, paging with
copy-on-write and shared ranges, file-backed frames, ELF loading, ACPI and PCI
discovery, the ATA driver's decoding, IPC, pipes, the network stack's socket
table, address configuration and DNS query slots, the scheduler's task tables,
the shell's parser, the keyboard decoder and the desktop front end.

Layout:

- `src/` — the verified library. Each module states its data model with spec
  functions and views; public functions carry `requires`/`ensures` over that
  model, and laws that relate several calls are public proof functions.
- `tests/` — ordinary Rust tests that run the library on concrete values, among
  them the components' own self tests.
- `app/` — the program around the library: port I/O, the primary ATA disk, the
  keyboard loop, the boot memory map and the network stack's endpoint types.

Devices are reached through traits. `BlockDevice` models a disk as its sectors,
`PageMapper` models page tables as the pages mapped with their frames and flags,
and `FrameStore` models the mappings it has made; each has an in-memory
implementation in the library (`RamDisk`/`SparseDisk`, `TableMapper`,
`MemoryStore`) proved against those contracts, and the contracts of the code
above them are stated over these models. The primary ATA disk is not handed to
the library as a device: `app/` reads the sectors it needs into an in-memory image.
The remaining device traits (`PortIo`, `Ps2Port`, `PhysicalMemory`, `ConfigSpace`,
`ImportTarget`, `Services`) carry no model; what is proved of code above them
concerns the values it computes and the arguments it hands over.
