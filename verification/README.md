# forza-painter

A vinyl helper for Forza Horizon: it turns an image into shapes on the graphics
processor and puts the shapes into the vinyl template that is open in a running game.

- `src/` is the library, verified with Verus: the geometry documents, the memory
  layout of the games, the search for the layers of a template, the import, the
  diagnosis, the settings and the plan of the generator, and what the window decides.
- `app/` is the program around it: the window, the files, the graphics processor and
  the memory of the game.
- `tests/` runs the library on made-up documents and games.

The library reaches no file, process or device. A run that works on the memory of a
game (`LiveryChain`, `Diagnosis`, `TableCheck`, `Locator`, `Inspection`, `Import`) is a
value that names its next request and takes the answer. What it comes to is stated over
a `World`, the answers that requests get: `expects(w)` is the outcome where every
request is answered from now on as in `w`, and no answer of `w` changes it.

Numbers in floating point are held as their bits; the program computes with them and
writes them. The program reads the kernels from `shaders.wgsl` in the working directory,
and the presets from `settings/*.ini`.
