# mud_sculpt

A digital clay modeller. Clay is a field of signed distances over a grid of voxels, held as
IEEE-754 bit patterns in tiles; tools, moves, turns and settling edit it, every edit can be
undone, and scenes are saved as `.mudclay` files and exported as binary STL.

- `src/` is the library, verified with Verus: grids and layers, stamps, connected pieces and
  how they move, turn, rest and settle, strokes and undo, the project file, meshes' lattices
  and faces, STL, and the decisions behind tools, dialogs and shortcuts. Samples are ordered
  and compared exactly, by their bits; no function of the library does arithmetic on them
  beyond negating and doubling.
- `tests/` runs the library from outside.
- `app/` is the program around it: window, camera and input, files, and the floating-point
  geometry of the tools, whose distances it hands to the library.

Functions named `law_*` state what holds across functions: that an undone edit leaves no
trace, that a saved scene is the scene that is loaded, that a moved or turned piece arrives
whole, that a heap keeps its clay while it settles.
