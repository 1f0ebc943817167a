# immixcons

A conservative mark-region heap in the Immix style, with its decisions proved
by Verus.

- `src/` is the verified library: block and line layout (`constants`),
  size classes and header padding (`allocator`), line and object-map
  metadata with hole finding (`blockmeta`), bump allocation inside a block
  (`bumpblock`), the block histogram (`histogram`, with the key order of
  `ordkeys`), the block list that
  places objects, identifies conservative pointers and manages empty blocks
  after a collection (`heap`), tagged words and scoped pointers
  (`rawptr`, `pointerops`, `taggedptr`, `safeptr`, `trace`), the stack
  extent to scan (`stack`), and a mark-sweep memory of boxed objects rooted
  by stack words (`boxheap`).
- `app/` holds what touches raw memory and the operating system: block
  allocation, writing headers and objects, reading the thread's stack, and
  the loop that obtains a block whenever the library asks for one.
- `tests/` exercises the library on concrete values.
