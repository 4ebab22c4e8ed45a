# blkbstr

The logic of Blockbuster — a desktop front end and privileged daemon for the zapret2 DPI
circumvention engine — as a Verus library, with its behaviour stated in contracts and proved.

- `src/` is the library. Each module states what its functions return over views of its types
  (`Seq<char>` for text, `Seq<u8>` for bytes, view structs for configs and states) and proves it.
  Properties that span functions stand as public proof functions at the end of their module.
- `tests/` runs the library on concrete values.
- `app/` is the daemon program around it: the socket, the processes, `nft`, the files, logging,
  and the JSON forms of the library's types. It also holds the GUI's commands as plain functions.

Laws worth knowing first: `render::rendered_lines_are_single_options` and
`render::read_back_lines_are_single_options` (a valid config renders one option per line),
`candidates::every_candidate_is_valid_and_names_known_functions` and
`candidates::every_candidate_renders_one_profile`, `reachability::the_hello_names_its_host` (a
server reads back the host the hello was built for), `daemon::only_valid_configs_reach_the_engine`,
and the supervisor's and the engine's laws on restarts and trial runs.
