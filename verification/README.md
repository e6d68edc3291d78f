# magic paper

Firmware for a drawing pad: a 4.26" e-paper panel (GDEQ0426T82) with a touch
overlay (FT6336U) on an ESP32. The library in `src/` holds its logic, written in
[Verus](https://github.com/verus-lang/verus) with contracts that are proved; it
touches no hardware. The program in `app/` is the thin layer around it.

A driver does not drive. It returns the bus operations it wants performed, the
program performs them and reports how they went, so that the order of every
operation, and what happens after one fails, is part of the contracts.

| module | what it holds |
|---|---|
| `geometry` | points, sizes, rectangles |
| `framebuffer` | the image of the panel and the drive masks, down to the bit |
| `waveform` | waveform tables, and how long they drive which pixel |
| `script` | bus operations one at a time, and what follows a failure |
| `gdeq0426t82` | the panel's driver |
| `controller` | a model of the panel's memory, to state where images end up |
| `ft6336` | the touch controller's driver |
| `touch` | from touch reports to ink |
| `shapes` | strokes, dots, outlines and text on an image |
| `paper` | the drawing session |
| `qr` | QR codes, scaled and centred |
| `ap`, `wifi`, `http`, `dns`, `nvs` | setting the device up |
| `text` | numbers and padding |

What the laws of a module are is stated by its functions named `law_...`. Shapes
and text come from `embedded-graphics`, QR codes from `qrcode`; the functions that
call them say in their contracts what is taken from there without proof.
