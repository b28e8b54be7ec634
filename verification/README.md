# AI gateway

A gateway between applications and AI providers: it authenticates requests by API key, limits
their rate and their cost, answers repeated prompts from a cache, balances the others over
upstream servers, and keeps account of the tokens used.

- `src/` is the library, verified with Verus. `session` decides what happens to a request, step
  by step; `laws` states and proves what holds of every session. The other modules hold the
  rules that a session goes by: requests and responses, prompts, routing, retries, usage,
  statistics and payments.
- `app/` is the program around it: sockets, TLS, the database, the payment provider's API, and
  what is computed in floating point.
- `tests/` runs the library on concrete requests.

A request passes these steps: authentication, rate limit, cost limit, cache, routing, upstream
connection, response, token extraction, cache store. A response that the cache holds needs no
upstream server.

Routes and API keys: `app/main.rs` sets the routes, and `api_keys.json` maps each API key to the
requests per second that it is allowed on a route.
