# piercast

The verified core of Piercast, a launcher and supervisor for local apps.

`src/` is a Verus library. Every function in it carries a contract, and
Verus proves all of them but a few thin wrappers around outside crates:

- `schema` — the app configuration and its validation rules;
- `graph`, `graph_laws` — the dependency start order (dependencies first,
  cycles and missing apps reported) and its laws;
- `health` — the healthy / unhealthy hysteresis machine;
- `supervisor`, `lifecycle` — the registry of apps, their runtime states,
  start plans and status events, and the laws of starting and stopping;
- `launch` — stop, open and install decisions, command lines, URLs;
- `auth` — pairing, bootstrap and device tokens;
- `import` — drafting a configuration from a project directory;
- `tailscale` — the `tailscale` invocations for serve / funnel and reading
  their output;
- `desktop` — what the desktop client lists under each filter;
- `paths`, `text` — data-directory files, the control-plane port, and the
  string helpers the rest is built on.

`app/` is the program around it (daemon, CLI, HTTP API, MCP server,
SQLite store, processes and timers); it carries out what the library
decides. `tests/` exercises the library on concrete values.
