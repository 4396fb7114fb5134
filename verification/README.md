# MBTransient

A multiband transient shaper. The signal is split into up to six bands with a phase-coherent
Linkwitz-Riley 24 dB/oct crossover. Each band has a single shaping value that sweeps from "cut
the attack" through neutral to "cut the sustain", and the bands are recombined flat.

## Layout

- `src/` is the library. Everything in it is verified with Verus: what each function returns is
  stated in its contract, and what holds of the whole is stated in the public `law_...` functions.
  - `scalar`, `rounding`, `fixed`, `ideal`: the numbers that everything else is generic over, what
    holds of them where results are rounded or too large, fixed-point numbers, and the real numbers
    themselves.
  - `biquad`, `crossover`: filter sections and the crossover that is made of them.
  - `response`, `power`, `phase`, `flat`: filter sections at work on whole signals, over the real
    numbers, how loud and how late they are at each frequency, and why the bands of a crossover add
    up to the signal again. `algebra` holds small facts that these need.
  - `shaper`, `spectrum`, `plugin`, `runs`: the transient shaper of a band, the spectrum analyzer,
    the signal path of the whole plugin, and what becomes of whole runs of frames.
  - `params`: the parameters, and how bands are added and deleted.
  - `gui`, `plot`, `gesture`, `colour`, `text`: what the editor shows, where, in which colour, and
    what the mouse and the keyboard change.
- `tests/` runs the library, in single precision and in fixed point.
- `app/` is the plugin around the library: the host's parameters and buffers, the FFT, the egui
  editor, and single-precision numbers.

Functions such as the cosine, the exponential or the FFT are handed to the library by its caller;
the contracts say what they are asked for and what is made of their results. Laws that speak of
arithmetic that does not round say so. Others ask no more of it than what `rounding` states.
