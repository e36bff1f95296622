# engine

An event-driven simulator for digital circuits, with its behaviour stated in contracts and
proved with Verus.

A project is a set of drawn circuits: components at positions, wires between points, and
instances of other circuits. It is

1. compiled to templates (`compile`): pins that meet, directly, over wires or through
   splitters, become one net, bit by bit;
2. elaborated to a flat netlist (`netlist`): every instance becomes a copy of its circuit's
   gates;
3. simulated (`sim`): events at the same time are evaluated as one batch, in parallel, and what
   they change is read one tick later at the earliest.

Every bit has four states: the two levels, undriven, and driven to both levels at once.

- `plugin_abi`: bits, values, and the interface that every component fulfils.
- `components`: the built-in gates, by category.
- `file_format`: projects as they are drawn.
- `compile`: nets, geometry, and the attributes of each component type.
- `netlist`: templates and flat circuits.
- `sim`: the simulation, its event queue, and the schedule of the first evaluations.
- `ctest`: test scripts that drive components and check what they show.
- `summary`: a whole run of a project, and what its pins show in the end.
- `text`, `name_map`: strings as sequences of characters, and maps keyed by names.

`app/` is the command line program: it reads a project file in JSON, runs its main circuit until
nothing is pending, and prints the value of every pin.

What is believed without proof is declared in two places: `text` (appending to a `String`,
`char::from_u32`, and the quoting of strings) and `sim` (the parallel iterators that evaluate a
batch).
