# kit_kernel

The core logic of the Kit kernel, written in Verus and proved against its
contracts: physical page bookkeeping and the kernel heap, object pools,
page tables, the boot loader's hand-over (multiboot), ELF images, the
terminal and framebuffer state, process bookkeeping and scheduling, starting
programs from the system archive, and the kernel's command line and log
configuration.

Layout:

- `src/` — the verified library. Each module states what its functions do
  over mathematical models (`Seq`, `Set`, `Map`, integers) and proves it;
  public proof functions named `law_*` state properties that span several
  functions.
- `tests/` — tests run against the compiled library.
- `app/` — the parts that touch the machine: reading the boot loader's
  structures out of memory, copying from user memory once its pages are
  checked, serial and console output, and the checks made before handing
  such data to the library.
