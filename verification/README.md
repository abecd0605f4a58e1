# astra

A small web browser engine: an HTML tokenizer and parser, a CSS parser with selector
specificity and the cascade, style computation with inheritance, a tiny script interpreter,
HTTP request and response handling, a resource cache, page history, and a pixel canvas.

The library in `src/` is written in Verus. Every function carries a contract over a
mathematical model of its data (sequences of characters, maps, parse trees), and Verus proves
that the code meets it. Laws that relate several operations are stated and proved as public
proof functions (named `law_*`): for instance, that `<t>x</t>` parses to one element holding
the trimmed text, that inline styles beat the stylesheet, that going back and forward in the
history returns to the same page, and that page ids never repeat.

Layout: `src/` is the verified library (one module per part of the engine, plus `text` for the
character-level helpers and `strmap` for the string-keyed map the engine uses); `tests/` holds
the tests; `app/` holds the program around the library: the command-line entry point, file and
network I/O, the floating-point layout and painting, and the V8-based runtime.
