# calzone

The verified core of Calzone, a Geant4 wrapper that simulates the energy
deposited by high-energy particles in a calorimeter.

`src/` is a library verified with Verus. It holds the logic of the project,
each public function with a contract:

- `geometry`: the builder of geometry definitions (find, delete, relocate,
  place and modify volumes by their dotted paths), the assembly of volumes
  and geometries from their definitions, volume names, overlaps and shape keys, the sources of tessellated shapes, the ASCII Grid grammar and
  file formats of topography maps and the layout of their meshes, material
  states, and the order in which mixtures are defined;
- `simulation`: run settings, the pseudo-random stream (PCG, from `rand_pcg`),
  the roles of volumes, and the decisions of the particles generator;
- `utils`: graph traversals with cycle detection, error and tag messages, the
  rules by which dictionary keys are read as properties, binary STL framing,
  array layouts and text helpers.

Laws of the library are stated as public proof functions named `law_*`, or in
the `ensures` of the functions they are about.

`app/` is the unverified part around it: file input and output (STL,
ASCII Grid and GeoTIFF files), and the floating-point work (mesh queries,
map meshes and elevations, sampling of particles, energy deposits), which the
library does not hold.

`tests/` exercises the library on concrete values.
