# vibe_search

A semantic file search tool: a daemon indexes the files of the directories
it watches as text embeddings, and the command-line client `vs` asks it for
the files nearest to a query, prints them or lets the user browse them with
a preview.

The library (`src/`) holds the parts that decide and compute, verified with
Verus:

- `message`: the messages between client and daemon, and the walk options.
- `frame`: the length-prefixed framing of messages on the socket.
- `path`: paths as text, compared by component; results relative to the
  working directory; file names and extensions.
- `cli`: the client's commands and how it reads replies; the plain and the
  tabular output.
- `daemon`: the watched paths, the handling of requests, the text embedded
  for an entry, the ranking of hits, the filter that removes paths from the
  index.
- `interactive`: the result browser's selection, keys, preview and outcome.
- `highlight`: the calls into `syntect` that colour a preview.
- `text`: splitting and joining text.

`app/` is the program around it: argument parsing, the socket, the terminal
user interface, crawling directories, embedding and the vector index. Run as
`vs-service` it is the daemon; otherwise it is the client.
