# wlight

Brightness control for monitors that answer over DDC/CI, over a Wayland gamma
table, or over both.

- `src/` is the library: the brightness policy, the association of I2C buses
  with connectors, the daemon's state and the applet's state. The functions
  there are verified with Verus against their contracts. Four short wrappers are
  not: `hash_bytes` and `hash_text` call blake3, `native_bytes` calls bytemuck
  and `lowercase` calls `str::to_lowercase`. Their contracts are taken on trust,
  as is the one given to `String::push`. Numbers of 64-bit floating point are
  held by their encoding, and their arithmetic is verified too.
- `tests/` runs the library on concrete values.
- `app/` is ordinary Rust around it: the daemon `wlightd`, the command line
  `wlightctl` and the applet, with their hardware, D-Bus and Wayland I/O.

Whatever touches hardware is told by the library as a replay: given the outcomes
so far, a method says which access comes next or what the result is. `app/`
performs the access and hands its outcome back.
