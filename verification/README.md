# eba

A single-threaded message bus with envelopes, mailboxes, a request registry
and a job host, written in Verus: the library's functions carry contracts that Verus
proves. What rests on the machine (the monotonic clock's reading, the
pseudo-random id generator's seed and digits) has no contract beyond the
type of its result.

Three primitives carry all the traffic:

- **Envelope** (`src/envelope`): a header of four facts (id, topic, sender,
  cause) and a payload `Value`. Topics are dot-separated names.
- **Bus** (`src/bus`): owns the mailboxes (`src/inbox`) and the subscription
  table; a publish reaches every matching open mailbox once, or, when one of
  them is full, none.
- **Actor**: reads one mailbox (`src/subscriber`) or only publishes
  (`src/publisher`).

On top of them:

- **Registry** (`src/registry`): each request is registered as Pending under
  its id with the result topic and cause its answer must carry; a result
  that matches all four facts resolves it once; finishing forgets it.
- **Job / JobHost** (`src/job`, `src/jobhost`): a job runs one root
  envelope through user hooks (begin, stage result, finished), issues
  requests with a limit on those outstanding, and finishes once. A host
  queues accepted business envelopes, adopts them as jobs, routes results
  to the job that issued the request, and times requests out with a clock.

Ids come from an `IdGen` (`src/idgen`: a counting one and a pseudo-random
one), time from a `Clock` (`src/clock`: a hand-driven one and a monotonic
one); both are lent to the host for each `handle` or `poll`.

The laws the library keeps are public proof functions named `law_*` next
to the functions they speak of (answering a request once, settled requests
staying settled, subscription idempotence, all-or-nothing delivery, the
text of a parsed pattern, reading back what an object insert wrote, ordered
object keys, distinct sequential ids, a subscribed mailbox being reached
by every topic its pattern matches, an adopted root job being found by its
cause).

Mailbox handles are numbered per bus: a handle's id is its index among the
bus's mailboxes, so two buses hand out the same numbers.

`tests/` holds the tests; `app/main.rs` is a small program that runs a
reader host and prints the answer it gets.
