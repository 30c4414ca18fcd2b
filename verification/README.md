# switrs_courier

Reads the report notification e-mails that I-SWITRS (California Highway
Patrol) sends when a requested SWITRS database export is ready, and performs
the Gmail OAuth2 exchange used to fetch them.

- `src/` is the verified library: the e-mail search and body
  parser (`message`, `mail`), the `MM/DD/YYYY` dates (`calendar`), string and
  integer handling with the semantics of the standard library (`text`,
  `decimal`), the pure steps of the OAuth2 exchange (`auth`), and the calls
  into `regex`, `url`, `time` and `mailparse` with the contracts believed of
  them (`upstream`).
- `app/` is the command-line program: argument handling, the local redirect
  server, the OAuth2 and Gmail requests.
- `tests/` exercises the library on concrete values.
