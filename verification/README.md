# Fransson

Fransson archives Kafka topics, restores them deterministically, clones them,
and forwards new events between clusters. Everything it decides is in a library
that Verus verifies; the program around it talks to Kafka and to the disk.

- `src/` is the verified library. Each function states in its contract what it
  returns or changes, and on which inputs it fails and with what report.
- `tests/` runs the library on concrete values.
- `app/` is the program: command line, configuration and state files, Kafka
  clients, and the tasks that carry out what the library decides.

The modules of the library:

| Module | What it holds |
| --- | --- |
| `text`, `text_map`, `failure` | texts, maps ordered by text, reported failures |
| `wire`, `layout`, `compression`, `archive` | the archive format and its zstd stream |
| `config`, `topics`, `client_config` | the configuration, the topics in it, client settings |
| `state`, `registry`, `kafka_identity` | progress, the identities that fence it |
| `metadata`, `transfers`, `partition_list`, `assignment` | source partitions and where reading them starts |
| `reconcile`, `topic_admin`, `kafka_consumer_groups` | what becomes of each destination topic |
| `records`, `partition_loop`, `status`, `execution` | transfers, what is shown of them, when a command stops |
| `dump`, `restore` | archives on their way in and out |

What the library trusts of other crates stands in `text`, `compression`,
`archive`, `partition_list` and `client_config`, each item with a comment that
says what is believed of which function.

State is kept in a registry file: by the ID of the destination cluster, then by
destination topic, and every record of a clone or of a restored topic is bound
to the UUIDs of the topics it was made for.
