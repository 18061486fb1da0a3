# zdu

Disk usage of directory trees, with a verified core.

- `src/` is the library. Its functions carry contracts that Verus proves, but for a
  few thin wrappers around calls into other crates and the standard library, whose
  contracts are taken on trust.
- `app/` is the program around it: the command line, reading the disk in
  parallel, and printing.
- `tests/` runs the library.

## What the library does

| module | what it holds |
| --- | --- |
| `path`, `path_join`, `normal_form`, `name_key` | paths as bytes and components, on Unix and Windows |
| `utils` | comparing paths, reducing a list of paths to the roots of its trees, filters |
| `platform` | what the metadata of a file comes to |
| `dir_walker`, `walk` | what becomes of each entry, and the state of a walk |
| `node`, `inode_set`, `progress` | what a walk finds, identities, messages and counters |
| `filter`, `heap`, `display_node` | which nodes are shown, and in which order |
| `config`, `cli`, `clock`, `startup` | settings and arguments |
| `display`, `text`, `pattern` | names, sizes, text and regular expressions |
| `order`, `sorting`, `sums`, `lists` | orders, sorting and sums |

## What is proved of it as a whole

- `accounting`, `totals`: where nodes are not measured by timestamps and the
  metadata of every directory is known, what was counted goes up the tree without
  loss, and the finished trees measure together what was counted.
- `identity`, `history`: where hard links are told apart, no file occurs twice in
  the trees of a walk.
- `schedule`: the trees that a walk ends with do not depend on the order in which
  scans end.
- `history`: by apparent size, and where links are not followed, the trees that a
  walk ends with depend on its roots and on what is found in each directory, and
  not on the order in which directories are walked.
- `normal_form`: the normal form of a path whose components give the same
  components when they are joined again, as those of every Unix path do, is a tidy
  spelling of the same path.
- `determinism`, `shape`: what is shown does not depend on the order of children,
  where no two nodes have the same name.

The doc comments of the items marked `external_body` or `assume_specification`
say what is taken on trust of the standard library and of other crates.
