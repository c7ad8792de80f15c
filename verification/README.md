# duplex_talk

A verified library for two small programs:

* a conversation between two peers over TCP, where every message travels in a
  frame made of a big-endian length (payload bytes plus four), a big-endian
  serial number and the UTF-8 payload;
* a grep tool that prints matching lines, numbered, with the matches in red.

`src/` holds the verified logic (`wire`, `message`, `dialogue`, `grep`);
`app/` holds the sockets, threads, files and argument parsing around it.
`app/main.rs` runs the conversation with `talk` as first argument, and the
grep tool (`PATTERN FILES`) otherwise.
