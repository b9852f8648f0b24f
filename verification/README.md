# nier_mod_loader

Mod selection for a NieR:Automata mod loader, verified with Verus.

The loader finds CPK archives and DLL plugins under `data\mods`, keeps a
`config.ini` with a `[CPK]` and a `[DLL]` section of `STEM=VALUE` entries,
and decides from it what is mounted and injected, and when.

- `src/ini_model.rs`: the contents of an `ini::Ini` as plain values, and the
  calls into the `ini` crate, each with its contract.
- `src/mod_files.rs`: found mod files grouped by file stem; one config
  entry governs every file of a stem.
- `src/selection.rs`: which mods load and how, as spec functions, the
  verified decision procedure, and its laws.
- `src/config.rs`: the configuration type, its construction, loading,
  saving and the two selection entry points.
- `src/startup.rs`: the start-up decisions (proxy detection, what is
  mounted and injected when, whether the DLC loader is hooked).
- `src/win_path.rs`: Windows paths read component by component: the file
  stem that keys a mod, and whether the working directory is `data`.
- `app/`: the DLL around the library: Windows entry points, the Direct3D 11
  proxy, file discovery, config file I/O, hooks and injection.
