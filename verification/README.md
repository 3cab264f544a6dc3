# native

The runtime core of a bytecode VM for Udon programs, verified with Verus.

A program is a sequence of big-endian words. It can be run two ways:

- **Interpreted** (`vm::interpreter`): `InterpreterState` runs one
  instruction per `step` and says what it needs from the host (a heap read,
  a copy, the resolution or the call of an extern); the host does it and
  hands the result back with the matching `resume_*` call. Resolved externs
  are cached and their instruction rewritten, so the host is asked once.
- **Recompiled** (`vm::analysis`, `vm::dynarec`, `vm::emit`): each block of
  bytecode is laid out as stack ops (`analyze_block_stack`), the blocks of a
  program are found by following its jumps (`BlockDiscovery`), and each
  block's machine code is laid out as a list of `Instr` (`emit`); `Dynarec`
  moves the program counter between blocks by their return codes, and asks
  the runtime to compile the blocks reachable from a program counter that
  has no compiled block yet.

`vm::semantics` gives the ops and the laid-out instructions a meaning
(`run_ops`, `run_instrs`) and proves that a recompiled block has the
effects of interpreting its instructions, in the same order, and leaves
the same stack.

`app/` holds the host: the layouts of the managed objects, the callbacks
into the C# side, the assembly of each `Instr` and the C entry points.
