# aegisnode

AegisNode is a privacy proxy that sits in front of an LLM provider: it scans
each request body for personal data with configurable rules (regular
expressions and literal keywords), redacts what the rules ask it to, and
forwards the request to the configured provider.

* `src/` is the library, verified with Verus:
  * `config` — rules, destination provider, the default configuration, the
    fallback when nothing can be loaded, the watcher's reaction to file events;
  * `text` — byte-level search, character boundaries and UTF-8 decoding over
    vstd's UTF-8 model;
  * `scanner` — scanning (`scan`), redaction (`redact`, `redact_findings`,
    `try_redact`, `redact_body`) and the laws about them;
  * `error` — the error kinds, their descriptions and their JSON responses;
  * `engine` — the module registry and the request pipeline's decisions
    (route, request hook, forward to the backend, response hook);
  * `upstream` — the URI a request is forwarded to, and upstream failures;
  * `openai` — the OpenAI module's pipeline decisions and its authorisation header.
* `app/` is the server around it: hyper, tokio, the configuration file and
  its watcher, and the module hooks that do the waiting.
* `tests/` exercises the library at run time.
