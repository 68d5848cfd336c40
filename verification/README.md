# tda_rs

Topological data analysis with verified combinatorics.

`src/` is the library, verified with Verus:

- `order`: sorted vertex sequences, their lexicographic order and faces.
- `complex`: simplices and simplicial complexes (closed under faces by
  construction), Euler characteristic.
- `boundary`: boundary matrices over Z2.
- `persistence`: symmetric difference of sorted columns, reduction of the
  boundary matrix and the persistence pairs it gives, by filtration step.
- `pairing`: the persistence pairs are the same for every reduction.
- `combinations`: index combinations, from itertools.
- `permutations`: the lexicographic order of arrangements, and the run of
  `next_permutation` through all of them.
- `clique`, `alpha`: Vietoris-Rips, Čech and alpha complexes from boolean
  data decided on the points (close pairs, balls with a common point,
  circumradii, Delaunay triangles).
- `nerve`: covers, their validity and their nerves.
- `mapper`: Mapper graphs, their adjacency, connectivity and components, and
  how clusters are grouped and joined.
- `distance`: permutations in lexicographic order, and the test whether two
  diagrams can be matched within a threshold (a matching of the graph
  extended by diagonal copies, found by augmenting paths).

`app/` is the point-cloud side in ordinary Rust: Euclidean distances and
every other real-valued computation (filtration values, landscapes, k-means,
bootstrap), which decide the boolean data that the library works on.
