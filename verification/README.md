# boot_catcher

A screen-watching controller for a catch-the-boot game, split in two:

- `src/` — the verified library (Verus):
  - `geometry`: regions of interest, their overlap, clipping a search
    window, the game field from two calibration corners, pixel offsets.
  - `color`: integer HSV, the boot and cart colour tests, BGRA to luma.
  - `cart`: locating the cart as the best run of red columns.
  - `blobs`: 4-connected blobs of moving boot-coloured pixels (flood
    fill), with the blob list specified as the components met by a
    row-major scan.
  - `keys`: the held-key state machine, key events, steering with
    hysteresis.
  - `png`: reading the template size from a PNG header.
- `app/` — the Windows driver: screen capture, input injection, timing,
  logging, and the floating-point tracking model.
- `tests/` — tests of the library on concrete frames and inputs.
