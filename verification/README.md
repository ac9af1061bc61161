# scene_compositor

The decision core of a scene compositor, verified with Verus. Given the window
tree, the drawables' damage and the state of each output, it decides what every
output draws, which part of a buffer is repainted, and what a frame that reached
the screen, or did not, means for the next one.

## Layout

- `src/` is the verified library.
  - `geometry`, `region`, `region_set`, `damage_log`: rectangles, capped banded
    regions, lists of damage rectangles, and damage that remembers when it came.
  - `store`, `windows`, `ids`: drawables with their damage and dormancy, and the
    window tree.
  - `walk`, `emit`, `visit`, `scene_build`, `scene_diff`: the visibility walk,
    the scene that it builds, and the damage owed for a change of structure.
  - `draw`, `repaint`, `recording`, `scanout_damage`, `buffer_age`: what to
    repaint, which draws and commands that takes, and what each buffer lacks.
  - `output`, `frame`, `acquisition`, `submission`, `deferred`, `drain`, `cursor`, `present`:
    the life of a frame on one output.
  - `compositor`, `tick`, `root_overlay`, `settings`: all outputs together.
  - `audit`, `audit_target`, `ledger`: comparing partial frames with full ones.
  - `*_law` and `*_laws`: what holds across functions.
- `tests/` runs the library on concrete values.
- `app/` drives it: environment, Vulkan, and the presentation backend behind the
  `Platform` trait.

Positions, sizes and damage are integers throughout; push constants are turned
into floating point in `app/`.
