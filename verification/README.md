# parasect

A parallel bisection tool: it runs a command on numbers of a range, several at once, to find
the first number for which the command fails, given that it succeeds below that number and
fails from it on.

The library under `src/` is verified with Verus:

- `range`: integer ranges (`NumericRange`), sets of them kept in canonical form
  (`NumericRangeSet`), and the queue that hands out bisection points (`BisectingRangeQueue`).
- `parasect`: the state of a running search (`ParasectController`), the result maps that find
  the critical point, the worker reports, and a search that runs one point at a time
  (`search_one_at_a_time`).
- `algorithms`: the search by levels of evenly spread points, and the step that decides the
  next level (`next_level_bounds`).
- `cli`, `command_gen`, `setup`: checking the command line, making the command for a number,
  and the lines shown to the user.
- `ui`: styled lines of text, kept in a canonical form so that equal-looking lines are equal.
- `messaging`, `threading`, `task`: mailboxes and notifiables that record what they were handed,
  single-message mailboxes, values set once, cells taken once, and tasks that can be cancelled.
  `ChannelSender` is the sending end of a channel seen through these traits.
- `util::text`: decimal text, and search, replace and split on strings.

`app/` holds the program: argument parsing, the worker threads and subprocesses, and output.
With one command at a time, the program runs the verified `search_one_at_a_time`.
