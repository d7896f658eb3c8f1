# aero

Support code for bringing up Windows 7 on the aero PC emulator, written in Verus: every
function in `src/` carries a contract that Verus proves.

## Layout

- `src/` — the verified library.
  - `pci_routing` — PCI INTx swizzling and the Q35 interrupt routes.
  - `storage`, `sparse` — the AEROSPAR sparse disk format: header, allocation table,
    journal, reads and writes over a byte-addressed backend.
  - `hive` — in-place editing of REGF registry hives (the BCD store).
  - `bios`, `tier1` — the BIOS ROM image with its VBE handler and fonts; decoder operation kinds.
  - `cli` — the runner's options, key names, page walks and physical dumps.
  - `inspect`, `procscan`, `devnodes`, `resources`, `physmap`, `ramscan`, `linear` — reading
    a stopped Windows guest: fault context, threads, processes, modules, device nodes and
    their resources, mappings of a physical page, pattern searches, linear dumps and pokes.
  - `patch`, `lfb`, `bootvid`, `sce`, `resume` — repairs written into guest memory: the win32k
    handle table, framebuffer mappings, the Eng framebuffer redirect, the winpeshl WpeUtil
    imports, and a forced return to user mode.
  - `jitcache`, `runloop`, `vga` — the translated-block cache, the run loop's exit decisions,
    and framebuffer pixels as RGBA bytes.
- `tests/` — tests of the library on concrete values.
- `app/` — the command-line front end: argument parsing, output files, environment switches
  and report text.

Guest memory is reached through the `GuestPhysical` trait; `GuestRam` is a plain RAM image
that implements it.
