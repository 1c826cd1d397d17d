# image2ascii

Plays pictures and videos as coloured characters on a terminal.

`src/` is the verified library:

- `color`, `node`: cell colours (true colour, 6x6x6 cube, 3-3-2 palette), cells
  and the first-in first-out queue of frames.
- `reader`: the scaled size of a picture, the cells of a decoded RGB frame, which
  source frames are kept at a lower frame rate, which cells of a frame changed,
  and `VideoPacker`, which collects the changed cells of each kept frame.
- `package`, `bytes`: the package of a converted video and its big-endian byte
  layout, with the proof that decoding gives back what was encoded and that
  opening a package gives back its frames.
- `archive`: packages as DEFLATE-compressed bytes (through flate2).
- `player`: the screen a player draws on and what drawing a cell does to it.
- `utils`: the picture-by-picture player (true-colour cells, diffing decoded
  videos, the grid of a scaled picture, scaling through the image crate).

`app/` holds the program around it: arguments, files, ffmpeg decoding, the
terminal, timing and the floating-point brightness of a pixel.
