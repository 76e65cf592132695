# arkana

A launcher for handheld Linux gaming devices: a cover-art carousel of the
installed games, a settings drawer and an interactive terminal, driven by
keyboard or gamepad.

`src/` is the verified library (Verus):

- `terminal` — the terminal screen: a 22×80 grid fed with a program's output
  (printable bytes, CR/LF/BS/TAB, CSI cursor and erase sequences), rendered
  as text; the mapping of UI keys to terminal input.
- `covers` — the carousel's cover window: which covers are decoded, kept or
  dropped around the current game; decoding a cover and scaling it to fit;
  placeholder hue and initial.
- `entries` — game descriptors (`name`, `exec`, `cover`), the `GAME_DIRS` list,
  the descriptor files of a directory and the numbered game list.
- `settings` — the settings drawer's entries, what choosing one does, command
  output and battery capacity reading.
- `joypad` — gamepad events turned into key events, and the trigger combination
  that ends the terminal program.
- `launch` — which game to launch and the hand-off script.
- `text` — character and UTF-8 helpers shared by the above.

`app/` is the program around it: the Slint UI, files and processes, the
gamepad and sound devices, and the floating-point colour and audio code.
