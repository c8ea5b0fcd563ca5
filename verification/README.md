# link_interceptor

A Windows URL interceptor: the program is registered as a browser candidate, receives the URL
another program opens, keeps a history and favorites, and offers the ways the URL can be opened
(installed browsers, the scheme's protocol handler, custom apps chosen by root-domain and
protocol rules, apps that handle the website, the Windows default handler), ranked for the URL.

The logic is a library verified with Verus:

- `src/text.rs`, `src/sorting.rs`: text helpers over `Seq<char>` and a stable sort by integer
  keys, with their laws.
- `src/urls.rs`: the `url` crate's parser as the logic sees it.
- `src/rules.rs`: root-domain and protocol-scheme normalization.
- `src/clock.rs`: the system clock as a timestamp, on either side of the Unix epoch.
- `src/models.rs`: the data (settings, history and favorite entries, candidates).
- `src/windows_integration.rs`: registration values and state, registry readings turned into
  browsers, protocol handlers and website handlers, command-line splitting and launch plans.
- `src/candidates.rs`: collecting, ranking and de-duplicating the candidates for a URL.
- `src/storage.rs`: recording visits and toggling favorites.
- `src/opening_rules.rs`: validated editing of custom apps and rules, keeping rules consistent
  with the apps they name.
- `src/app.rs`, `src/ipc.rs`: the decisions of the windows and of the single-instance channel.

`app/` is the program around it: the `floem` windows, the YAML files, the registry, the shell,
processes and the loopback channel. `tests/` runs the library on concrete values.
