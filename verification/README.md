# roblox-require

Converts requires of Lua files into requires of Roblox instances.

- `src/` is the library, written and verified in Verus. It decides which instance a required file
  becomes: through a Rojo sourcemap, or through the relative path of the file.
- `app/` is the ordinary Rust around it: the configuration and the sourcemaps as they are written
  (with serde), reading files, logging, and the lock that lets clones of a require mode share the
  last sourcemap that was parsed.
- `tests/` runs the library.

What the library hands out is an instance path, with the style in which its children are indexed.
