# gruznet

A small graphical web browser. It fetches a page, cuts its markup into pieces, reads its style
sheets, lays the pieces out as blocks, and shows them in a window with tabs.

`src/` is the library, verified with Verus:

- `text`, `letters`, `number`: text as sequences of characters, letter case, and decimal literals
- `url`, `http`: addresses, requests and responses
- `css`: styles and style sheets
- `markup`, `page`: the pieces of a page, and the blocks they are shown as
- `formats`, `picture`: which image files the decoders can be handed, and image files as pixels
- `load`, `download`: fetching a page with all that belongs to it, and downloading a file, one step at
  a time
- `browser`: tabs, alerts and language

Strings are modelled by their characters (`Seq<char>`), and each type by a view (`StyleView`,
`PieceView`, `PageView` and so on) over which the contracts are stated. Proof functions whose names
begin with `law_` state what holds of several functions together.

Some places in a page are counted in bytes of its lower case and then looked up in the page itself.
Where such a place does not fall between two characters, the library answers with `OffBoundary`.

Image files are decoded by the `image` crate. Its decoders panic on some files. `formats` tells by the
bytes of a file whether one may; such a file the library hands back, and the program decodes it on its
own.

`app/` is the program around it: the window, the network and the disk. `tests/` runs the library.
