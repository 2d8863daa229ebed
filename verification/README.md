# al_wallpaper

A desktop picker for animated faction-themed wallpapers. The verified library
(`src/`) holds the catalogue model and its logic, each function with a
contract proved by Verus:

- `text` — character-level string handling, the lexicographic order, search,
  whitespace splitting, label shortening and letter spacing;
- `order` — stable sorting expressed as a permutation of positions;
- `model` — skins, factions, palettes, settings, `#rrggbb` colours and the
  indexed catalogue (`Data`), which groups skins by faction in display order
  and files skins of an unlisted faction under an added `Other` faction;
- `assoc` — a string-to-string map (monitor → skin, monitor → fit mode);
- `favorites` — the favourite set and its saved order;
- `apply` — the apply script's progress protocol and the run bookkeeping;
- `progress` — progress, status line and assignments, event by event;
- `gallery` — gallery filtering and ordering, keyboard cursor, rotation pick;
- `commands` — monitor list lines, decimal numbers, state-script arguments;
- `settings` — rotation and power menu entries and their labels.

`app/` is the egui application around it: windows and painting, fonts,
reading and writing JSON, spawning the helper scripts.
