# datatransfer

The verified core of a data synchronisation platform, written in Verus, and the
program around it.

A job reads the rows of one connection page by page, maps their columns, runs
them through a pipeline of ETL steps and writes what comes out to another
connection. Between its runs it keeps a high-water mark per key.

* `src/` holds what a run decides and computes, each function with its contract:
  the value model and SQL dialects, the configuration files and their templates,
  the ETL steps and the pipeline, reading, routing, batching, writing and state,
  schedules, and the rules of the plugin boundary. Laws that relate several
  functions are the public proof functions whose names start with `law_`.
* `tests/` runs the library on concrete values.
* `app/` is ordinary Rust: arguments, files, threads, clocks, logging, the C
  interface of plugins, and the database drivers.

What Verus believes without proof are the functions marked
`#[verifier::external_body]`, one specification of `String::push`, and the
declaration of the YAML parser's node type. Each names the function of std or of
an outside crate that it stands for.
