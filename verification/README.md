# pg_whitelist_proxy

A proxy in front of PostgreSQL that lets only those queries through that a Grafana dashboard may
send. A client names its dashboard when it connects; the dashboard's own queries are then the
templates that its queries have to match.

- `src/` is the verified library: templates and how queries are held against them
  (`template`), the whitelist made of them (`whitelist`), what is done with each message of a
  connection (`session`), which dashboard a connection speaks for (`scope`), what is read from
  Grafana (`provider`), and the configuration (`config`, `proxy`).
- `app/` is the program around it: arguments, sockets, HTTP, the cache of whitelists and
  PostgreSQL's scanner.
- `tests/` runs the library.

The functions whose names begin with `law_` state what holds of the library as a whole.

## Templates

A query template is the text of a query in which variables may stand. What may stand for a variable
is said by its own template, in which `@@Token(NAME)@@` is one token of the named type,
`@@TokenAny(NAME,NAME)@@` a run of tokens of the listed types, and `@@Array(NAME)@@` an array
constructor whose elements are all tokens of the named type. Token types have the names that
PostgreSQL's scanner gives them.

A query whose first line is a comment has the rest of that line as its name, and has to match the
template of that name. A query without a name has to match any template without a name.
