# sturnus

Automatic latency-based routing across LLM providers: a sidecar that exposes an
OpenAI-compatible API and shifts traffic to whichever provider is fastest and
available right now.

`src/` is the library: everything the sidecar decides, verified with Verus.
`app/` is the binary around it: sockets, files, clocks, floating point and the
process environment. `tests/` runs the library.

| Module | What it decides |
|--------|-----------------|
| `config` | What a configuration means, its defaults, and what makes it valid |
| `model_map` | Which candidates serve an alias, and which of them share statistics |
| `tracker` | How outcomes go into the averages of a candidate |
| `router` | Who gets the next request, in proportion to weight |
| `json`, `layout`, `body`, `labels` | How a request body is taken apart and put together, byte for byte but for what is set |
| `proxy` | What is sent upstream, and how the answer is relayed |
| `budget` | How much memory request bodies may take |
| `server` | The life of a request, and of a listener |
| `metrics`, `logging`, `trace` | What is observed, and how |
| `double` | Doubles as bits: storing, comparing and range-checking them |
| `header`, `text` | Header values and strings |

The library never computes with floating point. Functions that need a blended
average, an error rate or a share take the computation as an argument, and their
contracts say which values it is applied to and where its result goes.

What is taken from other crates without proof is in `json` (serde_json, reading into
the ordered map of indexmap), `labels` (serde_json), `header` (the header values of
hyper), `budget` (the semaphore of tokio), and two functions of the standard library
in `text` and `server`. Each such item says what it claims.
