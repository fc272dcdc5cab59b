# amail-bridge

A bridge between an amail relay and the webhook endpoints of agents.

- **Push mode**: one port takes the webhooks for all agents and hands them on.
- **Pull mode**: the relay is polled, pending deliveries are handed on and
  acknowledged.

Agents register their endpoints through the admin API; the routes are kept in
`amail_routes.toml` beside the configuration.

## Layout

- `src/` is the library: what the bridge decides and computes, with contracts
  that Verus proves.
  - `router`: the route table, its lookups and its file, with the contracts of
    `regex` and `toml` that are taken on trust.
  - `push`, `security`, `ip`: source addresses, networks and rate limits.
  - `webhook`: what becomes of a posted webhook.
  - `pull`: what is asked for, forwarded, acknowledged and waited for.
  - `health`: which targets are dead, and which routes go with them.
  - `config`, `cli`: configuration and command line.
  - `vhost`, `acme`, `admin`: virtual hosts, certificates and the admin API.
  - `headers`, `json`: the header maps of `http` and the values of `serde_json`,
    with their contracts, which are taken on trust too.
  - `text`: operations on texts.
- `app/` is the program around it: sockets, files, clocks and tasks.
- `tests/` runs the library.
