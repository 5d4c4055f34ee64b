# syspulse

A system monitor for Linux. It samples processors, memory, disks, network, processes and
temperatures, and writes each snapshot as InfluxDB lines, JSON, a terminal dashboard, an OTLP/HTTP
request or a binary frame.

- `src/` is the library, verified with Verus: parsing of what the kernel reports, sampling and its
  state from cycle to cycle, the latency tracer's programs and the order in which it is set up,
  thermal control of the sampling interval, and all output formats.
- `app/` is the program around it: system calls, files, sockets, the command line, and the
  evaluation of readings in floating point.
- `tests/` holds tests of the library on concrete values.

Readings stay exact in the library: a rate or a percentage is kept as the integers that it is a
quotient of, and becomes a floating-point number only where it is written. Where a decision rests on
floating-point numbers (how long the sampling interval is, which processes are the busiest), the
library computes them in integers and proves that they are rounded as doubles are.
