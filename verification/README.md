# blitzmd

URL to Markdown, and web search, with a verified core.

- `src/` is the library, verified with Verus: what a page's elements become in Markdown, tags and
  entities, links, lines, titles, addresses, the command line, search results and their relevance,
  what the search providers' replies mean, when to stop waiting for them, what to try next, and
  what is printed.
- `app/` is the program around it: the network, the clock, JSON and XML, standard output.
- `tests/` runs the library on concrete inputs.

The outside crates that the library calls are `lol_html` (rewriting a page), `scraper` (selecting
elements), `url` and `urlencoding`. Each call stands in a small function whose contract says what
is taken for granted about it.

```text
blitzmd [--verbose] <URL>
blitzmd search [--limit N] [--timeout-ms MS] [--json] [--llm] [--deep] [--deep-limit N] [--verbose] <query>
```
