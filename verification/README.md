# wiki_bfs

Finds a chain of links between two Wikipedia articles by breadth-first
search, either from the first article alone or from both ends at once.

- `src/` is the library, verified with Verus: the search graph and its
  steps (`graph`), the bidirectional search and the joining of its two
  paths (`bfs`), which linked pages are followed, how they are read from
  the API's JSON answer and how a title is read from a URL (`wiki_nav`),
  JSON values (`json`), the menu's decisions and the reading of typed
  numbers (`console_helper`), and character helpers such as trimming
  (`text`).
- `app/` is the console program around it: the menu loop, the terminal,
  the HTTP requests to Wikipedia's API and the concurrent fetching of each
  step's pages.
- `tests/` runs the library on concrete values.
