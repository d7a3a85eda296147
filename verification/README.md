# kalkulacka_prumeru

A grade calculator: subjects with weighted categories of grades on the 1.0–5.0
scale, each subject kept in its own JSON file, with a CSV export.

`src/` is the verified library (Verus). It holds what the program decides about
text and files:

- `subject_file` — the subject file: writing it (`subject_json`), reading it
  (`parse_subject_json`, `find_matching_brace`), new subjects and grade counts.
- `fields` — reading one field of a file: a string, a number, a list of numbers.
- `files` — file names and listing: `subject_path`, `json_stem`,
  `subject_names`, `new_subject_name`.
- `order` — the order of names and the sort that lists them.
- `export` — the text of the CSV export.
- `status` — which status messages report a failure.
- `roundtrip` — the proof that a written subject file reads back as the subject
  it was written from; `parse_model` and `encoding` carry it from bytes to
  characters; `seqs` and `text` hold the searches and white space rules they
  share.

`app/` is the program around it: the egui window, the directory and file I/O,
and the arithmetic on grades, which is floating point.
