# face_auth_core

The verified core of an infrared face-unlock service for Linux.

Frames come from an infrared camera, are equalized, searched for a face, cropped and
normalized for a recognition network, and the embedding that the network returns is matched
against the enrolled ones. `src/` holds what is decided and computed on the way, all but the
networks themselves and the exponential in the decoding of a face box, with contracts that
Verus proves:

- `float32`, `rounding`, `square_root`: binary32 arithmetic on bit patterns, with laws in
  `float_laws`.
- `capture`, `camera`, `devices`: reading what the V4L2 driver says, the dialogue with it, and
  choosing a camera.
- `equalize`, `preprocess`, `resample`, `statistics`: preparing frames.
- `detector`, `inference`, `verify`: anchors, boxes, embeddings and their similarity.
- `storage`, `lockout`, `codec`: the files.
- `auth`, `scan`, `enroll`, `photo`: one attempt, a scan with a liveness check, enrollment, and
  the check of a photo, as steps from an event to an action.
- `config`, `paths`, `text`, `diag`, `error`: settings, text and diagnostics.

Modules whose names end in `_laws` hold what is proved of several functions together.

`app/` is the command-line program around the library: it performs the actions, reads and
writes the files, talks to the driver and runs the networks. `tests/` runs the library.

`kstring` is not used directly: it is pinned because later releases need a newer compiler than
the one this project is built with.
