# rotatevideo

Rotates a video as a 3D volume: X = width, Y = height, Z = frames (time).

```
rotatevideo input.mp4 output.mp4 30 40 60      # X=30°, Y=40°, Z=60°
```

`src/` is a verified library: everything that decides or computes something, with contracts that
Verus proves. `app/` is the program around it: it starts `ffprobe` and `ffmpeg`, moves frames through
pipes, files and threads, and takes the sines and cosines of the angles.

| modules | what they hold |
|---|---|
| `config`, `util`, `clip`, `error` | the settings, shell quoting, clipping, what can be wrong |
| `probe`, `ffmpeg`, `audio`, `job`, `path` | the input, the commands, the audio plan, the decisions of a run |
| `geometry`, `track`, `mapping` | rotation, bounding box, a window that follows the content, inverse mapping |
| `pixfmt`, `colour`, `volume`, `render` | frame layouts, fill colours, sampling, rendering |
| `exact`, `stream`, `blending` | proofs: turns move voxels unchanged, frames can be rotated one by one, blends lie between their voxels |
| `rotation`, `turns`, `subsampling`, `agreement` | proofs: rotations keep lengths, right angles are exact, planes agree |
| `slices`, `grazing`, `window` | proofs: slices lie in the box, windows hold the content |
| `pipeline`, `progress`, `sys` | frames from bytes, chunks, process endings, progress lines, memory and disk space |
| `binary64`, `binary32`, `rounding`, `big` | floating-point arithmetic on integers, rounded to nearest, ties to even |
| `accuracy`, `grain` | proofs: how far rounding moves a result, and where it moves nothing |
| `reals`, `decimals`, `shortest`, `fixed`, `number`, `text` | numbers and texts, read and written |

A number in `binary64` is a multiple of 2^-1074. Products of matrices and vectors, frame rates,
durations and audio speeds are `Real` numbers: these can also be infinite or undefined, and are
computed, read and written as such. The functions that map, slice and track take numbers below 2^153,
from which no sum, product or quotient of theirs leaves the format.
