# lockout

Lock-free channels as verified protocols, written in Verus.

- `mpmc`: an unbounded multi-producer, multi-consumer channel. Messages are kept in a
  Michael-Scott queue, blocked receivers on a Treiber stack.
- `oneshot`: a channel for a single value.

## How it is laid out

Every operation is a state machine that names its next access to shared memory, to the clock
or to a thread, and goes on by what that access yielded.

| module | content |
| --- | --- |
| `memory`, `reclamation` | root links, nodes, published addresses, retired nodes |
| `ms_queue`, `ms_queue_proof` | the queue, and why its accesses make up a queue |
| `treiber_stack`, `treiber_stack_proof` | the stack, and why its accesses make up a stack |
| `mpmc_protocol` | the decisions of the channel |
| `mpmc_model` | the channel as a value, and its invariant |
| `mpmc_wakeup`, `mpmc_progress` | who wakes whom, and why the operations come to rest |
| `mpmc_channel`, `mpmc` | the shared state with the operations under way; the handles |
| `mpmc_history`, `oneshot_history`, `ms_queue_history`, `treiber_stack_history` | what is true over any number of calls in any order |
| `oneshot_protocol`, `oneshot_channel`, `oneshot` | the same for the oneshot channel |
| `error`, `counting` | what the channels answer; how often a value occurs |

`Queue::step`, `Stack::step`, `Channel::step`, `step_sender` and `step_receiver` make one
access of one operation under way. A caller who chooses the steps sees every interleaving, and
the contracts and the laws (`law_...`) hold for all of them. Accesses are taken to be
sequentially consistent. Between any two accesses a reclaimer may look whether anybody has
published a retired node, and reclaim one that nobody had published at any time after that.

`app/` runs the same state machines on threads, atomics and the hazard pointers of
`lockout-hazard`.

## What is proved

- The queue and the stack are linearizable: each operation takes effect in one access.
- An access that moves no link leaves less work to do, and an operation that runs alone ends.
  On a channel, every access of an operation that is not blocked brings all of them closer to
  rest.
- No access touches a reclaimed node, and no node is lost.
- What several threads enqueue comes out as an interleaving of what each of them put in; what
  they push is popped or left, none lost and none twice.
- No message is lost, doubled or overtaken. A receive takes what it returns, once, and takes
  nothing if it returns an error; all messages sent are accounted for in every state.
- A disconnect is reported only when the last sender is given up and the queue is drained, and
  it is final. The handles are counted in every state.
- A blocked receiver is never forgotten: in every state, while one waits somebody is on the way
  for each message in the queue. A receiver that was told of a message and leaves tells another
  one in its place.
- A receive waits until its time limit if nothing comes, and neither gives up before nor blocks
  beyond it; that of a oneshot channel ends once the sender is closed.
- The operations under way come to rest in whatever order they go on, and then no receiver is
  blocked beside a message: with as many sends as receives, none of them limited in time and
  all handles kept, every receive has returned.
- A value sent through the oneshot channel is received, handed back or dropped, once.
