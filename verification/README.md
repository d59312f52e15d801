# ryzr

Digital logic simulation engines for circuit-building games, written in Verus:
what a circuit computes is stated as mathematics, and every engine is proved to
compute it.

The rule that everything here obeys: simulation is honest. If a user builds an
adder out of gates, every bit of that adder is actually computed, every tick.
Engines are free to be clever about how values are computed, never about
whether they are.

## Layout

| module | what it holds |
|---|---|
| `netlist` | the model: nodes, values, outputs and next state of a circuit |
| `entity` | signals, registers, and the collections behind a circuit |
| `circuit`, `kahn` | the builder and the topological schedule |
| `interp` | the reference interpreter |
| `compile`, `fold`, `lower`, `lowering` | the tape: folded, levelized, sorted into runs of one gate kind |
| `engine` | what an engine is, and why engines over one circuit agree |
| `scalar`, `event`, `threaded` | dense, event-driven, level-parallel |
| `lanes`, `batch` | 64 instances per word |
| `fuse`, `fusion`, `adding` | ripple-carry chains become word additions |
| `gather`, `layout`, `emission`, `plan`, `pack` | one instance packed 64 gates to a word |
| `jit`, `pack_jit`, `native`, `meaning` | straight-line code, its Cranelift instructions, and what those compute |
| `hybrid`, `clock` | the race that keeps whichever engine is fastest |
| `mem`, `banks` | RAM banks behind mux trees and write decoders |
| `isa`, `assembler`, `emu`, `programs`, `fibonacci` | RV32I: meaning, encoding, emulator, programs |
| `wires`, `rtl`, `words`, `names`, `datapath`, `cpu` | a single-cycle RV32I core made of gates |
| `board`, `wiring`, `editor`, `panel` | a matrix of cells that compiles to a circuit, and its editor |

`app/` holds what stands outside the proofs: the editor's window, and the
engines that call code compiled by Cranelift. `app --self-test` runs the latter
next to the dense engine. The window needs bevy's `bevy_winit` and
`bevy_ui_render` features on top of those listed in `Cargo.toml`.

## What is proved

- One tick shows what the circuit computes from its inputs and its state, and
  latches the next state. This holds of the interpreter and of every engine, so
  no script of inputs and ticks can tell two engines apart.
- Scheduling a circuit keeps what it computes; a circuit is refused exactly when
  its gates form a cycle.
- A circuit has one tape. No gate on it is decided by a constant, computed twice
  or computed in vain, unless a user observes it.
- A fused carry chain is a binary addition, and a found RAM bank is a memory.
- Whichever engine wins a race runs the circuit from its power-on state, and the
  least measured time wins.
- A packed plan settles up to 64 gates of one kind, or a whole carry chain, with
  one word operation.
- The instructions handed to Cranelift compute what the straight-line code does.
- A core made of gates runs in lockstep with the instruction set: after every
  tick its program counter and registers are those of the emulator.
- Every instruction decodes to what was encoded, and the Fibonacci programs
  compute Fibonacci numbers.
- A board shows what its cells carry: sources at once, everything else on the
  next step, flip-flops one step later.
