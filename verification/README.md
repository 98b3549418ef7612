# emoji_compress

Shortens long, repetitive text (such as compiler error output) by finding
the runs of bytes that repeat most and replacing each with an emoji; a list
of what each emoji stands for is appended.

- `src/grow.rs`: growing the occurrences of a common substring into the
  widest shared run whose occurrences do not overlap, forwards and
  backwards.
- `src/distil.rs`: counting five-byte windows and turning the most frequent
  ones into suggestions.
- `src/brackets.rs`: trimming a suggestion so that its angle brackets are
  level.
- `src/text.rs`: searching, splitting, replacing and trimming text.
- `src/emoji.rs`: choosing an emoji for a suggestion.
- `src/compress.rs`: the whole compression.
- `src/outside.rs`: the calls into std and into the `emojis`,
  `strip-ansi-escapes` and `edit-distance` crates, with the contracts they
  are taken to meet.
- `app/main.rs`: reads standard input and prints it compressed.
