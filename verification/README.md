# direct_graphics

Recognises a terminal's replies to directly transferred images, in Rust
verified with Verus.

A client announces a transfer (`ResponseMatcher::arm`), writes the command out
and starts the deadline (`start`). Input from the terminal goes through
`InputFilter::push`, which gives back what is to be forwarded and the responses
that were found. A transfer that is given up (`retire`) or overdue is retired
for a second, in which a late reply is dropped. `valid_control` checks the
control data of a command before it is sent.

| module | contents |
| --- | --- |
| `bytes` | searching, splitting and decimal numbers |
| `controls` | control data of commands and replies |
| `matcher` | which reply is awaited, and for how long |
| `filter` | separating replies from other input |
| `clock`, `flag` | the monotonic clock and the shared flag |
| `controls_laws`, `matcher_laws`, `filter_laws` | what holds of several operations together |

Time is a number of nanoseconds since the matcher was created. Every operation
that depends on it comes twice: one method reads the clock, and one whose name
ends in `_at` takes the moment as an argument.

Two things are taken on trust: that the system's clock is monotonic, and which
atomic and which value a store into the shared flag is given. The proofs fix the
reading of the clock at which every operation acts, and the value that is stored
in the flag after it. How fast the clock runs, and what another holder of a
handle might store, are outside them.
