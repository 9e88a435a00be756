# boogy_db

An embedded database: tables of typed rows in B+ trees, secondary indexes,
transactions, a write-ahead log, page encryption, and vector collections that are
searched through a navigable small-world graph.

`src/` is the library. Its functions carry contracts that Verus proves; the wrappers
around other crates carry the contracts that those crates document, and `random_nonce`,
whose result nothing can be said of, has none. The library does no I/O: it works on page images, log records and byte
strings, and hands back what is to be written. `app/` puts files, floating-point
distances and an async handle around it. `tests/` runs the library.

## Where to look

| Module | What it holds |
| --- | --- |
| `page`, `overflow`, `file` | pages, rows across pages, the page file and its write guard |
| `tree` | B+ trees as mathematical objects, and what every change keeps |
| `btree_node`, `btree`, `btree_writer`, `btree_bulk`, `room` | the tree of rows |
| `index`, `index_node`, `index_tree` | index keys and the trees of indexes |
| `value`, `row`, `filter`, `query` | values, encoded rows, filters, sorted and paged results |
| `table`, `system_page` | tables, and the page that lists them |
| `store`, `engine`, `engine_bulk`, `engine_index`, `engine_list`, `finder` | rows and indexes of a table together |
| `session` | what each operation on a database does, as relations between states |
| `db`, `db_open`, `db_rows`, `transaction`, `log` | the database |
| `laws` | what operations do together: what is read after a write |
| `vector` | vector files, their log, the graph, and collections |
| `crypto` | AES-256-GCM |

## What is taken on trust

`crypto` calls `aes-gcm` and `rand`, `page` calls `crc32fast`, and `row` calls
`String::from_utf8`. The contracts of these calls are stated there, and nothing
else is believed without proof.
