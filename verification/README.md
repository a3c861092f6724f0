# Parallax

Parallax is an interactive viewer for holograms. It takes as input a folder of images, the hogels
of a half or full parallax hologram.

- `src/` is the verified library: which files of the folder belong to the hologram and where
  (`file_name`, `select`, `entry`), how a PNG becomes RGBA pixels (`decode`), how the images are
  stored and arranged (`images`, `loader`, `run`) and how they are packed into a texture for the
  shader (`texture`). PNG decoding itself is the `png` crate's; `decode` says what is relied on.
- `app/` is the viewer: the command line, reading the files, the camera and the scene.
- `tests/` runs the library.

`cargo run -r -- <folder> --mode half`
