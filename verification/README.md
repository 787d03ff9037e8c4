# skewed_dataset

A generator of skewed, clustered Euclidean benchmark datasets for
nearest-neighbour search. Training points are drawn around cluster centres,
which are drawn around supercluster centres. The test queries come from one
held-out cluster. The exact top-k neighbours of every query are recorded,
and everything is written to an HDF5 file.

Layout:

- `src/`: the library, verified with Verus.
  - `plan`: the dataset sizes and the output path.
  - `clusters`: even and uneven cluster sizes, which supercluster each
    cluster centre is drawn around, and point labels.
  - `rows`: row-major flattening, row shapes, and reordering rows.
  - `sampling`: shuffling points together with their labels, and drawing
    point pairs for distance diagnostics (randomness from `rand`).
  - `neighbors`: exact top-k selection in the IEEE-754 total order of the
    distances' bit patterns.
- `app/`: the command-line program. It does argument parsing (`clap`),
  floating-point sampling (`rand_distr`), distances, the parallel map over
  queries (`rayon`) and HDF5 output (`hdf5`).
- `tests/`: tests of the library on concrete values.
