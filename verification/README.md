# ps5_emulator

A small game-console emulator whose core is verified with Verus.

- `src/` is the verified library: the paged virtual memory, the interpreter
  CPU, the multi-core CPU model (instruction cache, branch predictor, pipeline,
  block compiler, cores and processor), game packages and their checksums, the
  installer, the game library with play sessions and saved progress, text
  reading and rendering, and the decisions behind the on-screen gamepad, the
  controller choice, the flow between screens, the screen layout and the sound
  registry. Each function states what it does in
  its `requires`/`ensures`, and the `law_*` proof functions state properties
  that hold across calls.
- `tests/` runs the library on concrete values.
- `app/` is the program around it: the window and screens (egui/eframe), GPU
  output, sound output (rodio), the Android entry points (JNI), and everything
  that computes with floating point (volumes, sizes, rates).
