# korome

A small 2D game engine. `src/` is the verified library, `app/` the window,
OpenGL and clock code around it.

- `src/input.rs`: the input state of the game loop (keys held down, mouse
  position) and the handling of one frame's events, with the key events of
  the frame; laws on how the key state follows the key events, how the mouse
  position follows the moves, how frames compose, and that `Other` events
  change nothing; which events stay queued after a `Closed`.
- `src/image_data.rs`: RGBA images, decoding through `image` (PNG, or the
  format a file extension names), and the
  bottom-row-first layout in which textures are uploaded; laws on where each
  row goes and that reversing twice gives the rows back.
- `app/`: `Graphics`, `Texture`, `Drawer`, `TextureDrawer` and `Game` on top of
  `glium` and `winit`, reading time with `time`.
