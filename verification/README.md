# visual_asm

An editor for assembly code that shows the code as blocks linked by control
flow. The library (`src/`) is verified with Verus; `app/` is the graphical
editor built on druid around it.

## Library

- `text`, `lines`: characters, lines (as `str::lines` yields them), UTF-8
  lengths, decimal numbers.
- `util`: which jump a line of assembly holds (`contains_jump`).
- `codeblock`: blocks, their labels, the collection of blocks, deleting a
  block, and writing the blocks as text in control-flow order.
- `splitter`: splitting blocks so that each has at most one label, one
  unconditional jump (its last line) and one conditional jump.
- `linker`: linking each jump to the block of its label.
- `parser`: reading the text format (`;#codeblock,x,y,` before each block).
- `shape`, `laws`, `keep`, `roundtrip`: what holds across these functions,
  proved: every block after splitting has at most one label, on its first
  line, at most one unconditional jump, on its last line, and at most one
  conditional jump, so it can be linked; splitting keeps the code and leaves
  blocks of that shape as they are; linking twice is linking once; saving
  writes every block exactly once; and reading what was saved gives back the
  texts and positions (for a chain of blocks, each in its place).

## Editor

`app/` holds the window, the widgets of the blocks, dragging, panning, and
opening and saving files. Positions are floating-point and stay there; the
library takes them as whole numbers when it writes them.
