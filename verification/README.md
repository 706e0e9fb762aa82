# nwn

A language server for notebooks without notebooks: it runs a file through a runtime and shows what
each line printed as comments below that line, and what went wrong as diagnostics.

- `src/` is the verified library. It holds the rules of the server: the configuration
  (`config`), what a runtime reports and how it is gathered by line (`protocol`, `runner`,
  `frames`), the edits that bring the output comments of a buffer up to date (`comments`), the
  diagnostics and the folding ranges (`diagnostics`, `folding`), and the state that ties them
  together (`backend`). `text`, `rope`, `buffers` and `util` are what these are written in.
- The modules that end in `_laws` hold what is proved of the library as a whole: that an update
  takes away nothing but output lines, that its edits do not overlap, that every output is shown
  behind its line and output lines of earlier runs go, and that a second update with the same
  output asks for nothing. That edits do not overlap and output is shown holds where no output
  belongs to a line that is an output line itself. That a second update asks for nothing holds
  where, besides, output is shown below lines that end in a line break and are indented by spaces
  and tabs, the line comment is on one line and does not start with a blank, the quoted output has
  no line breaks, and no carriage return meets a line feed where output lines go; each law says
  exactly what it needs.
- `app/` is the program around it: the language server protocol, the runtime's process and socket,
  and the configuration file.
- `tests/` runs the library on concrete values.

A line of output starts with the line comment of the language and a `>`, behind its indentation.
A language is run when a document is opened or saved, and on each change where its configuration
says so.

The server looks for its configuration in `./.nwn.json` and then in `~/.config/nwn/.nwn.json`. The
file holds a list of languages, and `{runtimes}` in a command or an argument stands for the
directory that the file is in.
