# gaffer

Light control for a desk of Elgato Key Lights: a daemon that discovers them,
owns their state and serves it on the D-Bus session bus, and a command line that
makes them bindable to a key. Everything that decides anything is a library
whose functions state what they return and are proved, with Verus, to return it.

## Layout

- `src/` is the library.
  - Values: `color`, `state`, `group`, `units`, `selector`, `text`, `endpoint`.
  - Instruments: `link` (gangs), `scene`, `record`, `world`.
  - The daemon: `discovery`, `elgato`, `dbus`, `supervisor`, `config`.
  - The command line: `cli`, `proxy`, `render`.
  - Ground: `strings`, `names` (ordered maps and sets), `json`.
  - `laws` states what holds of the whole desk; laws about a single module stand
    in that module, under names that begin with `law_`.
- `app/` is ordinary Rust around it: sockets, the bus, files, the terminal. It
  performs what the library decides and hands back what happened.
- `tests/` runs the library.

## What is proved

Every function carries a contract over mathematical models: a text is a sequence
of characters, a light a record, the world a map of lights with a sequence of
gangs and a map of scenes. The laws add what no single contract says, among them:

- moving any member of a gang moves the whole gang, keeps every difference that
  the range allows, and never chases itself;
- a lamp is in at most one gang, and a gang has at least two lamps;
- a scene restores the desk it was taken from, gangs included, as long as its
  gangs were in step, which every move of a gang makes them; applying it again
  changes nothing;
- a command that arrived while an answer was under way is never undone by it;
- no command, level, answer or scene in range asks a light for more than its
  hardware can do;
- gangs and scenes survive a restart.

What is believed rather than proved is marked where it stands: `String::push`,
`str::to_lowercase`, the debug form of a list of strings, and how `serde_json`
builds and writes a tree.

## Time

Nothing in the library reads a clock. Functions that need the time take it, in
milliseconds of whatever clock the caller keeps.
