# ggst_clipper

Finds matches in recorded Guilty Gear -Strive- videos by template matching and
cuts them into clips named after the result and the characters.

- `src/` is the verified library: region geometry, the integer sums of the
  normalized cross-correlation, the scan state machine, file-name and
  settings text handling, connected components and CTC decoding for the
  character-name reader, and the image crop/resize calls into `image`.
- `tests/` runs the library on concrete values.
- `app/` is the command-line program around it: ffmpeg and ffprobe
  processes, the ONNX models, file access, and the floating-point steps
  (the correlation coefficient, resolution scaling, edit-distance scores).

Not part of this build: the graphical launcher window (only its settings
file handling and the launch of the command-line program are in `app/`),
the JSON progress output, and the file dialog shown when no video is given
(the program then stops with an error).
