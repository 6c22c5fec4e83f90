# edu_sync_cli

A command-line client for Moodle (`moodle configure | status | courses |
content | search | get | sync`), whose decisions and output are verified
with Verus.

- `src/` is the verified library: finding a course by id or name, the course
  list, filtering and searching course content, choosing the file that a
  path asks for, extracting a token from a single sign-on redirect address,
  the synchronisation plan (which courses, retries, summary, how downloads
  are split), and the markdown of every result. Contracts are stated over
  `Seq<char>` models of the strings; the laws of the library are public
  proof functions beside the functions they speak of.
- Calls into `base64`, `url`, `dialoguer`'s `console`, `indicatif` and
  `str::to_lowercase` stand behind small trusted wrappers whose contracts
  name their results.
- `app/` is the program around it: argument parsing, the configuration file
  and web service of `edu_sync`/`edu_ws`, prompts, progress bars, downloads
  and printing.
- `tests/` runs the library on concrete inputs.
