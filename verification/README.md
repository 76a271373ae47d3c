# zk-alloc

Large-buffer allocation for zero-knowledge provers on Linux. Buffers of 64 KiB
and up are rounded to a size class and, once freed, stay resident in a sharded
cache, so that the next proof round reuses warm pages with no system call and no
zeroing. Smaller ones go to the system allocator. Beside the allocator there are
a bump arena for a whole proof phase and a swap-locked, guard-fenced buffer for
witness data.

## Layout

- `src/` is the library: every decision that the allocator makes, with a
  contract that Verus proves. It makes no system call. Memory is named by
  address, and a function that needs the kernel returns what is to be done, or
  takes the kernel's answer.
- `app/` carries the decisions out: system calls, locks, atomics, and the
  `GlobalAlloc` interface.
- `tests/` runs the library on a machine made of plain vectors and maps.

## What is proved

- A size class covers its request with at most a quarter of waste, and the size
  of a class is its own class.
- The cache hands out regions that are large enough, aligned, and apart from all
  others in use. It counts its bytes exactly, stays under its ceiling, gives a
  freed region to the next request of its class, and accounts for every region
  that was ever mapped. All of this holds after any run of calls.
- A block that is resized keeps its contents and its alignment, and a block that
  moves is freed once, with the layout that it was allocated with.
- The arena hands out aligned memory that never overlaps, refuses only when
  there is no room, and its secure reset wipes all that was handed out.
- There is no secret buffer without a guard page on both sides, and all of its
  pages are wiped before they are given back.

No proof rests on a trusted declaration.
