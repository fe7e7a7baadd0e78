# logitray

Battery readings of Logitech keyboards and mice, with the decision logic of
a single summary tray icon (its summary, tooltip, icon choice, device menu,
menu commands and low-battery notifications) written in Verus and proved
against its contracts.

The program in `app/` has no tray icon and no HID++ receiver support: it
follows Bluetooth battery readings, raises the low-battery toasts and prints
the status and summary lines whenever they change. `--once` prints one scan,
`--diag` a Bluetooth diagnostic.

- `src/` — the verified library:
  - `model` — readings, transports, device-name normalisation, the
    deduplication of one device seen through receiver and Bluetooth, and
    the ordering of poll results;
  - `dedup`, `sort` — the generic deduplication (one reading per
    normalised name, the preferred one winning) and stable sort behind them;
  - `bluetooth` — which GATT battery readings are kept, scan outcomes, the
    scanner's schedule, and the device events a snapshot publishes;
  - `notify` — when a low-battery notification is due, and its title;
  - `tray` — the per-device projections, the lowest-battery summary,
    tooltip and menu texts (also for no device), the summary icon, the
    preset choices, the menu commands, and the whole step from one device
    event to what the tray shows;
  - `config` — settings, file locations and the device-profile cache;
  - `console` — whether a command-line run attaches to the parent console;
  - `strmap`, `text` — string-keyed maps and character-level text handling.
- `app/` — the program around it: TOML files, the Bluetooth scan thread and
  the Windows GATT scan, toasts, the Windows console, and `main`.
- `tests/` — tests of the library.
