# oms

A fault-tolerant order pipeline whose rules are verified with Verus.

A sender publishes orders to a cluster of three replicas. The replicas agree on
the outcome of every order by a Raft log, and their leader publishes the results
to a receiver. Each hop recognises duplicates, finds gaps, and asks for what is
missing. An independent witness tells an isolated replica whether its peers are
really down before it may lead alone.

## Layout

`src/` is the library. It holds the rules and no I/O: time, randomness, files and
packets come in as values and go out as values.

- `sequence_tracker`, `replay`: which order ids have arrived, and when to ask for
  those that have not
- `auth`: frames with HMAC-SHA256 tags; `wire`: the binary layouts
- `orders`: orders on their way into the cluster, and their outcomes
- `process`: the replicas. `wal` and `frames` are the log and its file,
  `wal_laws` proves what they keep; `raft_model` says what a replica does,
  `leader_election` does it, `raft_laws`, `cluster`, `safety` and `commitment`
  prove what follows for one replica and for the cluster
- `sending`, `receiver`, `witness`: the other services
- `environment`, `places`, `text`, `bytes`, `clock`, `chance`: what they share

`app/` is the program around it: sockets, files, threads and the Aeron transport.
It runs one service, named by its first argument: `order-sending`,
`order-process`, `order-receiver`, `order-monitoring` or `order-witness`.

`tests/` runs the library on concrete values.

## What is proved

Every function of the library states exactly what it returns, and those that draw
a random number state what holds of every outcome. Beyond that, the proof
functions whose names begin with `law_` state what holds of the library as a
whole. Among them:

- an id is accepted once, and the missing ranges are exactly the unseen ids below
  the highest seen one
- what is encoded, framed, signed or written to a log is read back unchanged, as
  far as its size fits the four bytes of its length, and a truncated tail is
  dropped
- two replicas that were each elected by a majority never lead since the same
  term, as long as no replica is restarted
- what is committed by a majority is held by a majority and by every later
  leader, no replica loses it, and all replicas apply the same entries. This
  speaks of runs in which no replica is restarted, every leader is elected by a
  majority and commits by a majority, and no leader keeps leading in a higher
  term than the one that it was elected in
- a replica leads or commits alone only where that is allowed, it hears of no
  peer, and the monitoring service has confirmed that its peers are down; the
  confirmation can be waived in the configuration
- only the leader publishes results, live or on request, and only those of
  applied entries
- the file of a replica's log loads back to the log, and the sender's file to its
  index, also where a truncated record was cut off before the next one was
  written

A replica keeps neither its term nor its vote across a restart, and a leader with
the lease of a majority adopts a candidate's higher term and keeps leading; that
is why the statements about the cluster leave these out.

The calls into `bincode`, `hmac`, `sha2` and `rand` are trusted; each stands in a
small function whose contract says what is taken from it.
