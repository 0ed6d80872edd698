# sfp

A congestion controller in the style of BBR: it paces a sender by the bandwidth
that the receiver reports, with a gain that cycles through four states, and says
how much redundancy the losses call for. Everything under `src/` is proved with
Verus.

Rates, times and shares are binary64 numbers. They are held as their bit patterns
(`double::Double`), and every operation on them is proved to give the number nearest
to the exact result. So the controller computes, bit for bit, what it would
compute in the arithmetic of the machine, where that gives a number; `tests/`
compare the two.

- `rounding`: binary64 magnitudes as whole numbers, and the nearest of them
- `magnitude`: the operations on magnitudes
- `double`: numbers with a sign, infinities and what is not a number
- `order`: how the operations respect the order of numbers
- `decimals`: the numbers that the controller is tuned with
- `time`: spans of time and the clock
- `model`: what the controller knows, and how each event changes it
- `bbr`: the controller
- `laws`, `timing`: what holds of it as a whole

`app/` offers the controller to callers that count in native numbers.
