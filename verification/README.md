# ovit_tools

Finds the recordings on a TiVo drive and lists their titles and metadata.

`src/` is a library verified with Verus. It reads no drive itself: it parses what
was read, decides what to read next and writes what is to be shown. Each public
function states what it returns over mathematical models (sequences of bytes and
characters, maps by fsid), and the proof functions named `law_...` state what holds
of the library as a whole: that parsing reads back what was written, that what
stands before a damaged part survives it, that a recording is never given the
program of another, that no title is lost where a partition is cut into chunks.

`app/` holds the commands `recordings`, `titles` and `dumpobj`. They do the input
and output, against the traits of `app/drive.rs`, which stand for the crate that
reads drives.

What is taken on trust stands next to its doc comment in `src/`: the calendar of
`chrono` (`calendar.rs`), the index pattern of `regex` (`index_entries.rs`), and a few
string functions of std (`text.rs`).
