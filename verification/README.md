# xsd_parser

A verified library that collects XML schema documents and works out what their definitions depend
on. It is written in Rust and proved with Verus.

## What it does

- `parser` and `load` collect schema documents: they queue the documents that a schema imports,
  includes, redefines or overrides, load every document once, and refuse an included document of
  another namespace.
- `reader` reads the events of a document with `quick_xml` and collects the prefixes that it binds.
- `builder` numbers the collected schemas, gathers them by namespace and chooses prefixes for the
  namespaces.
- `processor` walks over the collected schemas, resolves every name that a definition refers to and
  builds the cache of all definitions with their dependencies.

## Layout

- `src/` holds the library. `buildmodel`, `steps`, `walk` and `schemawalk` say what the functions
  compute; `buildlaws`, `parserlaws`, `loadlaws`, `keys`, `walklaws`, `entrylaws`, `visitlaws` and
  `replacelaws` state and prove what holds of the library as a whole.
- `tests/` holds the tests.
- `app/` is ordinary Rust around the library: it opens files, asks a resolver for documents and runs
  the queue of requests until it is empty.

## What is not proved

Each function marked `#[verifier::external_body]`, and each `assume_specification`, calls
`quick_xml`, `url` or the standard library. Its doc comment says what is taken for granted of the
call. A deserializer is given by the user of the library: what the loading functions promise is
stated relative to what it makes of the events of a document.
