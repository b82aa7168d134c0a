# typst_studio

The logic of a Typst editor — project files, the package cache and the
package registry's archives, the compiler's inputs and outputs, the editor's
tabs and settings, storage records, syncing with local directories and
Google Drive — as a library whose behaviour is stated in contracts and
proved with Verus.

- `src/`: the verified library. Each module states its data as views over
  `Seq`, `Map`-like association lists and character sequences, and each
  public function says in its `ensures` what it returns or changes; where
  a function reads back what another wrote (a stored file record, a stored
  package record, a spec's text), its `ensures` or a public `law_*` proof
  function says that the same value comes back (for a package record, the
  same files in some order). The types that hold keyed entries (`AppState`,
  `PackageCache`) have a `wf` predicate, no key twice, that their
  constructors establish and their methods keep.
- `tests/`: tests that run the library on concrete values.
- `app/`: a command-line program around the library: it reads and writes
  files, calls the library's compiler, and (de)serialises project metadata
  (which carries floating-point times) and the compile worker's messages
  with serde; it hands the library plain values.
