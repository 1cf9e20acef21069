# camOS

Memory management for the camOS kernel, and the planning half of its loader, verified with Verus.

* `src/` is the library. `phys_alloc` hands out pages of physical memory, `freelist` and
  `dynamic_alloc` split pages up into blocks, `spinlock` is the lock around each free list,
  `loader`, `mapping` and `kernel_file` decide where the kernel and the rest of memory go in the
  kernel's address space, and `acpi` reads the firmware's tables. What holds of these as a whole
  is stated and proved in `page_laws`, `heap_laws`, `heap_history` and `loader_laws`.
* `app/` is what talks to the machine: the loader, which the firmware starts, and the kernel.
* `tests/` runs the library on memory that is put together by hand.

Memory is explicit: an operation that reads or writes physical memory takes a `LinearMemory`, a
window of memory that is read and written in 64-bit words. The kernel implements it with atomic
operations on the real memory, and `PhysicalMemory` with a vector.

What several processors do at the same time goes through `SharedMemory` and `SharedFlag`. Their
operations leave open what the others change in between, and record what they do and find. Pages
are allocated and freed, and locks are taken and given up, through these; memory and locks that
one processor has to itself are the case without others.
