# jpdict

Imports the JMdict Japanese-English dictionary into an SQLite database.

- `src/` is the verified library (Verus): the entity definitions at the head
  of the XML file (`entities`), inline elements and their values (`xml`), the
  line-by-line reader of the entries (`reader`), the expansion of entity
  references for a whole-document parse (`jmserde`), the rows that store an
  entry (`store`), decompression of the published archive (`gz`), text
  helpers (`text`), the proof that written entries are read back
  (`roundtrip`), and the laws of a whole read: where it stops and which
  lines cannot change the stored rows (`reader_laws`).
- `app/` is the command-line program around it: downloads, files, the
  database and the XML deserializer.
- `tests/` runs the library on concrete documents.
