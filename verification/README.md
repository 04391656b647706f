# bksync

`bksync` synchronizes a local directory with a bucket of S3-compatible object storage: it pulls,
pushes, synchronizes in both directions, and can run as a daemon.

- `src/` is the library. Everything that is decided is decided there, and is verified with
  [Verus](https://github.com/verus-lang/verus): which keys take part, what becomes of each of them,
  the steps of every transfer, what is remembered from one run to the next, and what is reported.
- `app/` is the program around it: the command line, the configuration and cache files, the file
  system, the file watcher and the requests to the storage service.
- `tests/` runs the library on concrete values.

| Module | What it is about |
|---|---|
| `text`, `keys` | text, and maps and sets of keys in order |
| `time`, `checksum`, `filter` | points in time, MD5 checksums and entity tags, glob patterns |
| `local`, `s3`, `cache` | what is known of a file, of an object, and from the last run |
| `sync` | pull, push, synchronization in both directions, and the steps of a transfer |
| `daemon` | local changes as they come, and looks at the bucket from time to time |
| `cli`, `config`, `run` | the command line, the profiles, and the operation they make up |
| `progress`, `error` | what is shown, and what went wrong |

What holds of the library as a whole is stated by the functions whose names begin with `law_`. Among
them: a conflict loses neither version, the two sides agree on every key once its transfer
succeeded, and the same operation once more does nothing as long as neither side changes, except
that a synchronization deals with the files that the one before it kept aside: they are new to it,
and it sends them, or deletes them where it deletes what the bucket lacks.
