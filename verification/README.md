# solomni

The core of a desk where one agent or a team of agents works on a task with files,
tools and a user, written in Verus: what the core decides is stated in contracts and
proved.

- `src/` is the library. `json`, `text`, `table` and `patch` are its ground;
  `workspace`, `fence`, `execution`, `packages` and `module` say what an agent may
  touch and run; `envelope`, `converse`, `turn`, `systool` and `operation` take a
  model's reply apart and answer it; `session`, `rebuild` and `journal` keep what was
  said; `discussion`, `chain`, `review`, `collab` and `drive` lead a team from its task
  to its delivery; `kernel` and `crew` do so in the small; `desk`, `facade`, `assembly`, `registry`, `work` and `views` are what a caller
  sees.
- `tests/` runs the library with files and models played by the tests.
- `app/` is the application around it: the ports to models, files and the record of
  sessions, the threads that work runs on, and the interfaces for callers.

Public proof functions state what holds of the library as a whole: that a record
tells a session's replies again, that going back undoes a message, that nothing of a
plan starts before it is approved.
