# exec_viz

Tick-by-tick replay of a recorded computation graph.

A run of a graph is recorded while it happens: every node's output, element values and local Jacobian,
tick by tick. The recording is the storage, since a live run cannot be run again. It can be walked back
while it is still growing, or read back from a file long after.

The logic is a Verus library under `src/`; what it states is proved. `app/` is ordinary Rust around it:
the tape thread, the HTTP server and the browser front ends.

## What the library holds

| | |
|---|---|
| `acts`, `floats`, `text`, `names` | what one tick says, by column; floats as bit patterns; node names as a card shows them |
| `recorder`, `cost` | the graph thread's share: opening a tick, recording a report, timing a step |
| `tape`, `model`, `keeping` | the tape, what each tick makes of it, and what holds of every tape |
| `rank`, `thinning`, `retention` | what a full buffer keeps: ranks, the squeeze, and the laws of long runs |
| `replay`, `ops`, `walking` | the cursor ops, their answers, and the laws of walking |
| `file` | the tape file's header, and the tape as it is written down and read back |
| `session` | replay by running a deterministic graph again |
| `api_types`, `frames` | the wire shapes, and when two frames are the same |
| `board`, `panel`, `controls`, `maps`, `gates` | the front ends: layout, edges, controls, stored choices, gates |

`model` says what a tape is as a mathematical value, `TapeView`, and what absorbing a tick makes of it,
`absorbed`. Executable functions are stated over that, and the laws are proof functions over it.

## What it promises

- The newest half of the buffer is held whole, whatever came before it.
- The buffer is never left full: the tick that fills it makes the thinning pass. A pass leaves at least a
  quarter of the buffer free, exponents only rise, and where everything fits already none does.
- Thinning is max-min fair: a node whose fires fit its share loses none of them.
- Every node's first fire stays addressable while, at each pass, the ticks that hold a first fire fit a
  quarter of the buffer, which they do in a graph of no more nodes than that. The run's first tick stays
  addressable with them, where some node fired on it.
- Every tick the graph stepped is either on the tape or counted as dropped.
- A walk from the start visits every retained tick once, in order; a search lands on the first hit, and
  on a sealed tape one that finds nothing moves nothing.
- What a node reports reads back in the frame of its tick, under the name a card shows, and on no other
  node's activation.
- A graph once shown changes in its nodes' costs alone.
- A day's series are what its ticks told: a point per minute with a fire, holding the last one.
- A tape written down reads back as the tape it was; one written while it still grows reads back as what
  was addressable of it. Any file is read whose ticks ascend and can be shown.
- A replay session's seek ends where a fresh run stepped there does.

Floats are carried as bit patterns. The level over a node's cost samples, heat colours and pixel
coordinates are floating point and stand in `app/`.
