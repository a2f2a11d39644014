# multi-server

`multi-server` maps HTTP host names to directories. A `site.json` in each
directory says how the site is served: from files, by a program that is run for
every request, or by a process that speaks HTTP or FastCGI and that is started
on the first request and stopped when it is idle.

The rules of the server are a library, written and proved in Verus. The program
around it does the input and output.

## Layout

- `src/` is the library.
  - `resolver` finds the site of a host name, `manifest` says what a site may
    ask for, `supervisor` leads a request to its handler and past its limits.
  - `service` is the life of a process: start, reload, idle stop. `process`,
    `launch` and `namespace` say which programs run, with what, and where.
  - `files`, `stdio`, `cgi` and `fastcgi` are the handlers, with `reply`,
    `request` and `error` between them.
  - `headers` and `dates` hold what is taken from the `http`, `httpdate` and
    `mime_guess` crates, `text`, `number`, `path` and `environment` what the
    rest is built of.
- `tests/` runs the library on concrete requests.
- `app/` is the program: the listener, the disk, the processes and the sockets.

## What is proved

Every function of the library states what it returns for every input that it
takes, and does not panic. In one case the statement leaves two results open: a
program may write a head with more fields than a header map is sure to hold, and
such a head either becomes a reply or is refused for lack of room.

Functions called `law_...` state what holds across them: that a request being
answered keeps its process, that only one request starts a process, that a path
cannot leave the root of its site, that FastCGI records and parameters are read
back as they were written, and more.

What the outside crates do is not proved. Each call into one stands in a small
function whose doc comment begins with `Trusted:` and says what is relied on.
