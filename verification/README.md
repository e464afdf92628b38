# cloudplay

A server that streams its screen to web viewers and lets the viewers
control it together: each key is pressed while enough viewers hold it, and
the mouse goes to the viewers' average position.

* `src/` is the library, verified with Verus:
  * `compression` — delta and run-length compression of screen frames, with
    the proof that a compressed frame reads back unchanged;
  * `frame` — blank frames and the packing of sampled colours into pixels;
  * `http` — reading an HTTP request (request line, header fields, body)
    and the page answers;
  * `websockets` — the viewers, who may join, and the messages sent to them;
  * `input` — applying what viewers send (key presses and releases, mouse
    positions) and dropping closed connections;
  * `userinputs` — combining all viewers' inputs into one;
  * `setup` — the operator's yes/no answers.
* `app/` is the program around it: sockets, threads, screen capture,
  keyboard and mouse control, the terminal, and the floating-point scaling.
* `tests/` holds the tests of the library.
