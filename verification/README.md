# hydrant_optimizer

A scheduler for MIT courses. It takes the Hydrant catalog of a term and a set of subjects, finds
the timetable that occupies the fewest days and, among those, has the smallest gaps, and exports it
as a calendar. Sections that the catalog lacks can be added by hand; they are kept apart from
downloaded data.

The library under `src/` is written in Verus. Its functions state what they return, and Verus proves
it; a search that can be told to stop states both what it answers at its end and what it answers
when it is stopped. The library neither reads nor writes: it takes texts and values and gives values back. The program
under `app/` reads the files, the network and the keyboard, and shows what the library draws.

| Module | What it holds |
| --- | --- |
| `model` | courses, requirements, sections, meetings, and when meetings overlap |
| `adapter`, `json` | the catalog in Hydrant's JSON form |
| `cache` | which downloads may be cached, and what is used when there is no network |
| `storage` | meeting notation, manual sections and their merge into a catalog |
| `optimizer`, `week_bits` | the exact search and the score of a week |
| `app` | selections, chosen sections, new manual sections, names of exports |
| `calendar` | the iCalendar export |
| `session` | stored selections |
| `cli` | what the commands do |
| `tui` | the state of the terminal interface, its keys, and what it draws |
| `order`, `text`, `date`, `color`, `error` | what the others are made of |
| `laws`, `determinism`, `picks` | what holds of the parts together |

What is not proved stands in wrappers marked `external_body`, each with the outside function that
it calls: dates, time zones and instants (chrono, chrono-tz), JSON (serde_json), digests (sha2),
Unicode case (std), and the width, wrapping and division of terminal text (ratatui). `String::push`
has an assumed specification.
