# void_kernel

The logic of a small x86-64 kernel and of its build tool, as a library
whose behaviour is stated in contracts and proved with Verus.

- `src/` — the verified library:
  - `date`: UNIX time to calendar dates;
  - `boot`: the kernel command line, the consoles it asks for, the
    bootloader's memory map and linear mapping;
  - `limine`: the boot protocol's requests and responses;
  - `list`: the intrusive circular list, with items named by handles;
  - `log`: the ring of recent log output and what each console is shown;
  - `mem`: the firmware memory map, early allocation, page metadata, the
    page frame allocator, slabs, layouts and printed sizes;
  - `gfx`: framebuffers, fonts, and the text console painting them;
  - `sync`: ticket-lock counters and one-time initialization;
  - `msr`, `per_cpu`: register values and per-processor data;
  - `ksyms`: the kernel symbol table built from the object file (with the
    `object` and `rustc-demangle` crates) and searched for backtraces.
- `tests/` — tests on concrete values.
- `app/` — the build tool's `main` and the kernel-side glue that prints
  and hands the library's decisions to the hardware.
