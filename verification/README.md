# bfrs

An optimizing compiler for Brainfuck, verified with Verus. Programs are
parsed into a control-flow graph of basic blocks whose byte computations
live, value-numbered, in an e-graph. The optimizations convert add-assign
loops to closed-form multiplies, peel the first iterations of loops whose
stores become loop-invariant, and propagate constants into the copies that
read them. The result prints as pseudocode.

## Layout

- `src/node.rs`: offsets, block and input IDs, the nodes of the e-graph,
  what a node evaluates to, and insertion with idealization.
- `src/egraph.rs`: the e-graph: hash-consed nodes (a `hashbrown` table),
  e-classes with union by replacement.
- `src/block.rs`: basic blocks and their builder, concatenation, cloning
  into a fresh block (each input the block reads gets its own new input,
  numbered from the graph's input counter), and the values and effects a
  block has.
- `src/run.rs`: what a run of commands without loops does.
- `src/cfg.rs`: the control-flow graph and sequence flattening.
- `src/parse.rs`: parsing source into a control-flow graph.
- `src/ast.rs`: the abstract syntax tree and its parser.
- `src/properties.rs`: whether values read from or are invariant to a block.
- `src/optimize/`: closed forms, constant propagation and loop peeling.
- `src/pretty.rs`: printing a control-flow graph as pseudocode.
- `src/arena.rs`: an arena of values in fixed-size chunks.
- `app/main.rs`: the command-line program: reads a file, optimizes it and
  prints it.

The contracts are stated over spec functions in each module: what each
pass does to the graph, what each block computes, and what the printed
text is.
