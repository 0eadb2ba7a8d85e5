# i18n_tasks_rs

Finds missing, unused and inconsistent translations in Ruby applications, and
keeps their locale files in a normal form.

`src/` is a library that Verus verifies. It holds every decision: how keys and
key patterns match, how configs and locale data are read, what the scanners make
of Ruby, ERB and other templates, what each report says, where a key is written,
and how a locale file is emitted. Every public function states what it returns,
and the laws that span functions stand beside them as public proof functions.

`app/` is the command line around the library. It walks directories, reads and
writes files, parses YAML and Ruby, and prints.

| module | what it holds |
| --- | --- |
| `text`, `bytes`, `paths`, `textmap`, `lineindex`, `regexes` | texts, paths, ordered maps, positions |
| `keys`, `pattern`, `wildcards`, `plural` | keys, key patterns, plural categories |
| `yaml`, `config`, `digest`, `settings_text`, `session` | YAML nodes, the configuration, the locales of a run |
| `data` | loading, routing and emitting locale data |
| `scan`, `discover`, `used` | scanners, the files they read, the keys they find |
| `report`, `check`, `stats` | the reports |
| `clean_config`, `stale` | ignore rules that hide nothing |
| `migrate`, `init` | configs made from another config or from a project |
| `commands` | what the commands decide |

## What is proved

- A locale file reads back as the tree that it was written from, and is written
  in the same way again. This is by the reading that the contracts describe
  (`document_read` in `data::emit::reading`), not by the reader that runs in
  `app/`.
- A generated config reads back as the settings that were detected, and a base
  locale that a migration writes out reads back as `en`, by the reading in
  `settings_text`.
- Normalizing loses no key, gives no two locales one file, and leaves a
  normalized file alone (`report::normalize`).
- Removing unused keys removes none that is in use (`commands`,
  `report::unused`).
- A key is reported as missing exactly where it has no value
  (`report::missing`).
- A stale ignore rule can be taken out without changing a report, under the
  conditions that each law states (`stale`).

What the outside crates `regex`, `globset`, `aho-corasick` and `similar` do, and
a few functions of the standard library, are taken from their documentation: the
items marked `external_body` say what is claimed of each.
