# es_server

The decisions of a distributed event store's server, written and verified in Verus:
which configuration is valid, how the groups of a cluster form, who owns a stream,
what a read, an append, a subscription or a consumer group is answered.

Consensus, storage and the network are not part of the library. Where a decision needs
them, it is a function from what is known and what came back to what is to be done
next; the caller does it and hands the answer back.

The program in `app/` is such a caller for the configuration, the forming of groups, the
owners of streams and the changes of a running node. Reads, appends, subscriptions and
groups of consumers are served by whoever hands `Node::serve` the routes of its services,
and other nodes are asked by whoever implements `OwnershipNodes` and `TableSource`.

## Layout

- `src/`: the library. Every item is verified; what it takes from other crates stands
  behind functions marked `#[verifier::external_body]`, each with a comment that says
  what is taken for granted.
  - `config`, `args`, `server`, `factory`, `watcher`: from the command line and the
    configuration file to a server, and to the changes of a running one
  - `bootstrap`, `rpc_support`: forming groups, finding leaders
  - `route_table`, `ownership`, `attempts`, `first_append`, `migration_service`: which
    shard holds a stream, who is asked, and how it moves
  - `append`, `read`, `merge`, `subscription`, `service`: streams
  - `backlog`, `persistent_group`, `persistent_fetch`, `persistent_flow`,
    `persistent_service`: persistent subscriptions
  - `aggregate_types`, `aggregate_registration`, `aggregate_service`,
    `aggregate_admission`, `aggregate_follow`, `aggregate_states`, `aggregate_listing`:
    aggregates, their types, events and states
  - `aggregate_groups`, `aggregate_group_start`, `aggregate_delivery`,
    `aggregate_consume`, `aggregate_tokens`: groups of consumers of a type's events
  - `event`, `status`, `ids`, `endpoint`, `text`, `order`, `maps`, `versions`: what the
    others are made of
- `tests/`: tests of the compiled library.
- `app/`: the program.

Public proof functions whose names begin with `law_` state what holds of several
functions together, such as that paging loses nothing or that a stream is fenced at its
new and its old shard before its owner changes.
