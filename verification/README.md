# rbac_proxy

The request handling of a small HTTP proxy, verified with Verus.

- `src/parser/models.rs`: role-based access rules (`RBAC`, `Grants`) and user records.
- `src/parser/parser.rs`: what the proxy does with a request (`plan_request`) and the
  bodies it computes (forms, credentials, upper-casing, listing pages).
- `src/parser/resources.rs`: the fixed routes and texts.
- `src/web_proxy.rs`: reading a proxied request, writing it upstream, its log line.
- `src/web_server.rs`, `src/fields.rs`, `src/models.rs`: the plain server's response,
  sign-in body fields, and the proxy's user records.
- `src/text.rs`: splitting and number formatting shared by the above.
- `src/codec.rs`: the calls into serde_json, base64, url, regex and std formatting.
- `app/`: the programs (hyper proxy, forwarding proxy, web server, examples) that do
  the network and file I/O.
