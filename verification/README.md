# cargo-wiiu

Tools for Wii U homebrew written in Rust: conversion of PowerPC ELF
executables into Cafe OS modules (RPX executables and RPL libraries),
packaging of a module into a WUHB bundle, and the wiiload upload format.

The library under `src/` is verified with Verus; `app/` holds the command
line tool around it (argument parsing, files, processes, the network).

- `elf` – the big-endian ELF records with their encodings and decoders.
- `rpl` – the conversion: reading sections, fixing flags, types and
  relocations, placing symbol and string tables in the loader segment, the
  file information and CRC sections, compression, layout and writing.
  `rpl::laws` states what holds of every conversion, among others that the
  module holds each section's contents where its header says.
- `wuhb` – the RomFS image of a bundle: the folder tree, the directory and
  file tables, the hash tables and the image itself, and the configuration
  taken from the manifest's `wuhb` table. `wuhb::laws` states that every file
  is read back from the image at its packed offset, that each file records
  the next file of its folder, and that a bundle holds its module and
  `meta.ini`.
- `upload` – what is sent to the loader on the console.
- `cli` – checks on command line arguments.
- `external` – the calls into `flate2` and into std that are trusted.
- `bytes` – big-endian encodings and byte buffers.
