# turing_smart_screen

A system monitor for small USB IPS displays (Turing Smart Screen Rev A and
a simulated panel), with its core logic verified by Verus.

## Layout

- `src/` — the verified library:
  - `framebuf` — RGB565 framebuffer and RGB8 canvas primitives (pixels,
    rectangles, Bresenham lines, discs, blits, tile diffing);
  - `display` — the Rev A wire protocol (command packing, HELLO, brightness,
    orientation, region writes) and the simulated panel;
  - `daemon` — render-loop decisions (power events, which tiles a frame sends);
  - `yaml`, `config` — the YAML model, lenient accessors, the theme overlay
    merge and theme/config resolution;
  - `widgets` — widget backgrounds, text widgets and text placement, image
    cache, line-graph histories;
  - `render` — the static image layer (resampling through the `image`
    crate, cutting to the display, drawing);
  - `fmt`, `text` — value formatting and string helpers (trim, parse, case);
  - `sensors`, `superio`, `hwio` — sensor register decoding, fan and disk
    choice, ping/weather text helpers, Super I/O chip handling and driver
    request layouts;
  - `catalog`, `settings` — the configuration window's model/size/revision
    catalog and the writing of its settings into `config.yaml`;
  - `port` — which serial port is the screen, and the retry policy for
    opening it;
  - `cli`, `preview` — command-line parsing and the preview server's routing.
- `tests/` — tests of the library.
- `app/` — the program around the library: argument intake, file and serial
  I/O, sensor collection, font rasterization and other floating-point
  drawing, threads.

## Not included

The desktop settings window, the tray icon, and the Windows-only pieces
(ring-0 driver access and power-state notifications) are not part of this
build: their GUI, tray and Windows system crates are not dependencies here.
The settings window's decisions (model, size and revision catalog; writing
the chosen settings) are in `catalog` and `settings`. Port I/O and MSR/SMN
register reads go through the `PortIo` and `RegisterIo` traits of `hwio`,
so any driver client can be handed to `SuperIo::detect_with` and
`CpuTemp::from_module`; the WinRing0 and PawnIO clients in `hwio` report
nothing on this platform.
