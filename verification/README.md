# nix-visualizer

Captures what a PipeWire sink plays and prints one comma-separated line of bars per
frame, for a status bar or a shell to draw. SIGUSR2 pauses it, SIGUSR1 resumes it.

The library in `src/` is verified with Verus. The program in `app/` adds what talks to
the system: arguments, PipeWire, signals, threads, the Fourier transform, output.

| module | what it holds |
| --- | --- |
| `scalar` | the arithmetic that the stages are written over |
| `fixed` | fixed-point numbers, the scalar with integer arithmetic |
| `pause` | pausing and resuming |
| `audio` | mixing down, and the buffer of the newest samples |
| `settings` | frame sizes, sink names |
| `frame` | the window, zero padding, pacing, diagnostics |
| `bands` | band edges, and from a spectrum to band values |
| `band_laws` | how band values depend on the spectrum |
| `gate` | the noise gate |
| `normalize` | from band values to levels |
| `smooth` | smoothing across bars |
| `bars` | the rise and fall of the bars |
| `visualizer` | all stages in order |
| `text` | the line of text |

## Numbers

The stages are generic over `Scalar`. Its operations are taken as functions of their
operands and nothing more, so the contract of a stage says exactly which operations
were applied to what, for any rounding. `Curves` adds logarithms and the like, of which
nothing is promised; contracts say what they were called on and what was made of the
result. The program runs on `f32`. A type outside the library that implements `Scalar`
gives every `spec_` function as the operation it models, and these are never called.

What depends on how numbers behave (bars stay in range, a fall lands, smoothing is
linear and stays between its neighbours) is proved for `Fixed`, with the rounding that
its results may be off by. What depends only on order is proved for every scalar: no
level is below 0.001 and none above the full bar. A number that compares to nothing is
neither, so for types that hold such numbers this does not place a level between the
two. Where a law needs no more than an order that arithmetic keeps, as rounding does, it
is stated for every scalar that has one, and `Fixed` is proved to. Laws that rest on how
a curve runs, such as what a warp does to the band edges, take that as a hypothesis.

## What is taken on trust

One function of the standard library is used by a contract that is not proved here:
`String::clear` empties a string.
