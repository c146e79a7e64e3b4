# acs_seed_finder

A seed finder for the cultivation simulator: it scans world seeds for maps
rich in spirit soil and reads the game's data files for its NPC tables.

The library under `src/` is written in Verus and verified: the game's two
random number generators (bit for bit, floating-point scaling included, by an
integer model of IEEE-754 rounding), the terrain generator: every step and the whole map as functions of the generator's state
and the bit boards, so that the map of a seed (the grid the scanner counts)
is a function of the seed and the map's size, with every cell in exactly one
terrain layer; every step of the
hybrid scanner's CPU pipeline as a function of the generator's state and the
layers, the spiral of neighbour offsets (each offset once, squares of growing
radius), the text-seed hash and its inverse, the ranking of scan results, the item, spell
and NPC tables read from the game's XML and text files, the decryption of the
game's encrypted files, and the item pickers that draw from those tables.

`app/` is the program around it: the egui window, the scanning engines that
spread the verified map generator over every core or run the GPU kernels,
file access, and the packed data file (bincode and gzip).

`tests/` holds the tests of the library.
