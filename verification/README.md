# mop

A media-operations toolkit: it converts manga archives to CBZ volumes,
triages videos and archives, and watches systemd units, Docker containers and
Compose projects.

- `src/` is the library, written and proved with Verus: naming and path rules,
  archive triage, volume layout and de-duplication, ComicInfo handling, the
  Compose start/stop ordering and action planning, the log buffer, and the
  request routing of the plugins. The contracts state the results over spec
  functions of the library; the laws that relate several functions are public
  proof functions.
- `tests/` runs the library on concrete values.
- `app/` is the program around it: the command line, file and archive I/O,
  image decoding, ffmpeg, D-Bus, the Docker API and the JSON-RPC plumbing.
