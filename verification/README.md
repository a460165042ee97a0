# algorithm_visualizer

A sorting-algorithm visualizer. The library (`src/`, verified with Verus) runs nine
sorting algorithms (bubble, selection, insertion, merge, quick, heap, gnome, cocktail and
odd-even sort) and records every comparison, copy, write and exchange they perform as an
`Operation`. Replaying the recorded operations on the input, first to last, sorts it; each
algorithm's contract states this, the kinds of operation it records, and the exact
sequence of operations, given by a spec function per algorithm (`bubble_trace`,
`quick_trace`, `heap_trace`, ...) that defines the algorithm step by step on sequences.

`visualizer` holds the state of the viewer: the numbers shown, the chosen algorithm, the
speed, and the sort being played back one operation per tick, with its transitions
(randomize, sort/pause/resume, stop, count and speed changes, one frame).

`app/` is the window (egui/eframe): it draws the numbers as bars, turns button presses
into calls of the library, and keeps the clock.

`tests/` runs the algorithms and the viewer on concrete inputs.
