# groot

The verified core of the Groot game engine: a 2D/3D engine whose game logic
runs as GoScript on hot-reloading VMs and whose scenes and prefabs are RON
assets.

`src/` is the library, checked by Verus:

- `sprites` draws the built-in sprites pixel by pixel, following the
  single-precision arithmetic that `binary32` models exactly with integers;
  `textures` caches textures by path and decodes texture files;
- `assets` resolves asset paths against the embedded files and the disk;
- `input` keeps the keyboard, mouse and touch state scripts read;
- `host` loads one script engine per path, queues camera commands and
  settles what a frame's scripts asked of the world;
- `spawn` plans the entities scenes and scripts place, `entity` hands out
  their ids;
- `frame` decides what the main loop does with each window event and in
  which order sprites are drawn;
- `cli`, `scaffold` and `plugins` hold the decisions of the `groot` tool;
- `text` builds the strings and byte buffers the others hand out.

`app/` is the program around it: the `groot` command line, and the engine
runtime on winit, wgpu, hecs and the GoScript VM.
