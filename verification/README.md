# macrun

macrun keeps secrets in macOS Keychain and gives them to commands when they run:

```bash
macrun set myapp staging API_TOKEN
macrun run myapp staging -- npm start
```

## Layout

- `src/` is the library, written in Verus: scopes and their words, the secrets of a
  project and what `set`, `unset`, `import`, `purge` and the archives do to them, the
  metadata index, dotenv parsing and shell quoting, the sealed archive format, and the
  requests made of Vault and k2mx. Each function carries a contract that Verus proves;
  the laws of the store (a read gives back what was stored, scopes stay apart, removing
  an absent secret is harmless, a second store replaces the first) are proof functions
  in `src/keychain.rs` and `src/index.rs`.
- `app/` is the command itself: argument parsing, Keychain and file access, HTTP,
  prompts and child processes. It hands plain values to the library and acts on what
  comes back.
- `tests/` runs the library on concrete values.
