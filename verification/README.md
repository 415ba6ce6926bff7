# browser_skill

The web tools of a browser skill, written and verified in Verus: `web_fetch`
extracts the readable content of a page as Markdown or plain text, `web_search`
queries a search service, and `web_screenshot` asks a screenshot service for an
image. A request comes in as a JSON document, and each request is answered with
one.

- `src/` is the verified library. `text`, `offsets`, `tags`, `attributes`,
  `entities`, `lists` and `normalize` are the parts from which `html` builds the
  extraction. `encode` and `json` write what goes out. `request`, `decode` and
  `search` read what comes in. `host` is what the skill asks of its host,
  `session` keeps record of what is asked, and `skill` answers requests.
- `src/laws/` states what holds of the library as a whole: that the encodings can
  be undone, that normalizing is stable, what leaves no trace in the content, and
  what headings, links, code and lists become.
- `tests/` runs the library on examples.
- `app/` is the entry point for the host: the foreign functions, and the decoding
  of incoming JSON.
