# MultiBoot

A configuration-driven tray launcher for shell commands, built on Tauri 2.

- `src/` is the verified library (Verus): the configuration model and its
  validation, the tolerant loader, the export format and the import checks,
  the edits of the settings window, icon data URLs, the tray menu, the shell
  invocation and the Linux session decisions. The public functions state
  their behaviour in `requires`/`ensures`; the laws that span functions stand
  as public proof functions (`lemma_…`). Where the result comes from the
  image library (the pixels of an icon, whether an image decodes), the
  contracts state what that library's source shows: the sizes, that the
  image comes from the data URL's bytes, and the PNG header, not the pixels.
- `tests/` runs the library on concrete values.
- `app/` is the desktop program around it: Tauri commands and plugins, file
  I/O, starting processes, and the serde copies of the library's types.
