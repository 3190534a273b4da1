# walloftext

A wall of text that many people write on at once. The board is 4096 cells wide
and high; every cell holds a character, its color, and who wrote it when.

`src/` is the library, verified with Verus: what the server decides, what its
files hold, what the editor in the browser does, and what the tools around them
compute. `app/` is the program: sockets, files, the graphics card, the page.
`tests/` run the library on concrete values.

## The library

- The board: `coords`, `color`, `model`, `world`, `table`, `sort`, `text`,
  `parse`.
- The server: `state`, `auth`, `login`, `session`, `protocol`, `access`, `edit`,
  `guard`, `region`, `rate`, `query`, `news`, `http`.
- What is kept: `codec`, `segment`, `snapshot`, `replay`, `hydrate`, `history`,
  `migrate`.
- Taking edits back: `revert`, `admin`, `correction`, `summary`.
- Pictures of the board: `preview`, `paint`.
- The editor: `ui`, `editor`, `actions`, `keys`, `pointer`, `client`,
  `connection`, `chunks`, `fetch`, `fold`, `link`, `nav`, `panels`, `screen`,
  `layout`, `info`, `logbook`, `ruler`, `scene`.
- The tools: `font`, `video`.

What each function does is stated over views of its arguments: a board is a map
from places to cells, the editor a record of what it shows and of the orders it
has given. Functions named `law_..` state what holds of several functions
together.

Some functions call into other crates. Each such call stands in a small function
of its own, marked `external_body`, whose comment says what is taken on trust.

## The program

`walloftext serve` serves the board, `admin-revert` takes edits back while the
server is down, `migrate-snapshot` brings an old snapshot up to date, `font-gen`
makes a glyph atlas of a font, and `video` plays a video on a board. `app/web`
is the page; it takes its shaders and its font from the server's static files.
