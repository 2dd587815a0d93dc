# bindanalyzer

Cheatsheet and analyzer of Hyprland key binds, in the terminal, with its logic
verified by Verus.

- `src/`: the verified library.
  - `text`: characters and strings (trimming, splitting, numbers, order).
  - `model`: modifiers, keys, flags and binds.
  - `config`: the configuration parser, as a machine fed line by line.
  - `hyprctl`: turning what `hyprctl binds -j` reports into binds.
  - `query`: tag filter, search, free keys, free combinations, conflicts.
  - `snapshot`: merging the file's binds with the loaded ones.
  - `i18n`: the interface's texts in English and Spanish.
  - `app`: the interface's state and what each key does to it.
- `app/`: the program: command line, files, `hyprctl`, drawing and keys.
- `tests/`: tests of the library.
