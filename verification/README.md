A ray-traced voxel engine whose logic is verified with Verus.

`src/` is the library. Everything in it is proved against its contracts:

- `octree`, `packed`, `traverse`: a sparse octree, its flat form, and the order in
  which a ray visits it
- `tree64`, `walk64`: packed 64-trees, and a ray's path through one
- `region`, `store`: chunks in region files, and a directory of them
- `scene`: the Menger sponge that is rendered
- `shader`, `gpu`: which pixel is stored where, what it saw, which history it can
  build on, and the buffers that frames alternate between
- `frames`: what a frame builds on
- `bench`, `names`, `output`: benchmarks, their names, and the files they leave
- `live`, `cli`: what keys and arguments do
- `bits`, `text`: bits and decimal numbers

The library neither reads nor writes files, draws, or computes with floating-point
numbers. It says what to read and write and what comes next, and takes floating
point as bits.

`app/` is the program around it: windows, the GPU, files, the command line, cameras
and colors. `tests/` runs the library on concrete values.

What is trusted rather than proved is marked where it stands: the bit count of an
integer (`bits`), the cast of words to bytes (`gpu`), and times in words (`output`).
The error type of input and output, `std::io::Error`, is declared (`store`) and
carried through without a claim.
