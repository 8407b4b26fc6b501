# tinyticker

A small floating timer for the desktop: countdown, stopwatch, pomodoro and clock, with an icon in the
tray, an animated icon if one likes, and a socket through which later runs of the program give
commands to the one that is running.

`src/` is the library: everything that is decided and computed, each function with a contract that
Verus proves. `app/` is the program around it: files, sockets, the tray over D-Bus, sound, fonts and
the window. `tests/` run the library.

| modules | what they hold |
| --- | --- |
| `timer`, `parse`, `clock` | the states of the timer, durations and times of day, time zones |
| `config`, `settings`, `lang` | what is configured, and how it is read and written |
| `app`, `render`, `text`, `fonts`, `font8x8` | what the window shows, and its pixels |
| `effect`, `flow`, `mask`, `sine`, `single` | effects on the digits and the colors along them |
| `tray`, `bus`, `icon`, `sysinfo` | the tray: its menu, its messages and its icon |
| `anim`, `gif`, `png`, `inflate`, `bits`, `bytes` | animations and the formats they come in |
| `audio`, `tone` | sounds |
| `ipc`, `textsrc`, `display`, `strings` | the socket, texts from elsewhere, display servers, characters |

Two functions of the standard library are taken at their word, both in `strings`: `String::push` and
`std::str::from_utf8`.
