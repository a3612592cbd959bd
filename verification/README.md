# cartographer

A verified library for reading Paradox save and game files and drawing maps from them.

- `src/` is the library. Its modules read the text and binary formats of EU4, EU5 and Stellaris
  files (`text_lexer`, `bin_lexer`, `raw_parser`, `eu4_raw_parser`, the deserializers), their
  dates, countries, wars and province histories (`eu4_save`, `save_parser`, `map_history`,
  `country_history`), the colors of the map day by day and their written-out form
  (`color_map`, `serialized_map`, `frame_search`), the map's asset files (`map_parsers`,
  `web_map_parsers`) and the reservation lists of multiplayer games (`reservations`). Every
  function states what it computes in its `requires` and `ensures`, and the proof functions
  state the laws that tie them together.
- `tests/` runs the library on concrete files and values.
- `app/` is a command-line tool around the library: it reads files, prints tokens and sums up
  saves, and does the floating-point work (decimal numbers of saves, map positions) that the
  library leaves to its callers.
