# servmgr

A home-server manager: servers are powered on and off through reference
counters (one count per caller that needs a server), dependencies between
servers are followed, and each server's health is checked periodically.

- `src/` is the verified library (Verus): configuration validation and
  dependency-cycle detection (`config`, `graph`), the breadth-first cascade
  of counter changes (`cascade`), the counting engine and its power state
  machine (`engine`), health-check planning and status (`health`), the
  power command lines, Wake-on-LAN packets and MAC parsing (`power`), the
  stored row encoding (`db`, `types`), and properties of the whole
  (`laws`).
- `app/` is the service around it: HTTP API and event stream, SQLite
  storage, the probes and power commands themselves, and the background
  tasks that carry out the engine's commands.
- `tests/` exercises the library on concrete values.
