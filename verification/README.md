# Tusk

Tusk reads Paxton Net2 desktop readers in the browser, over WebHID, and
prepares what it reads for Net2: card numbers for people in a CSV or in Net2
itself, and portraits named by Net2 user ID.

The library in `src/` is written in Verus. Verus proves its functions
against their contracts, and the laws the page relies on are stated as
proof functions:

- `protocol`: building and parsing the reader's 41-byte HID reports, the
  XOR masking (its own inverse), and the start-up commands. A built frame
  parses back to what went in.
- `token`: decoding Mifare UIDs and Hitag2 pages into the number Net2 shows;
  every number found has at most eight digits.
- `reader`: what a report from the reader does to the card on display,
  which read comes next, and which connection may claim the reader (one
  polling loop per reader).
- `batch` and `batch_laws`: the card assignment queue over a Net2 import
  CSV or a list of Net2 users. Only the Card Number column changes on
  export; no card is ever held by two people; undo takes back a skip or an
  assignment; a direct queue counts a card only once Net2 accepts it; the
  card format is fixed once a card is assigned; stopping changes nothing
  else. Reading back an exported file gives the same table, with each
  person's card number in place, wherever `csv` reads back what it wrote.
- `json`: what Tusk reads of Net2's JSON replies.
- `net2`: server origins, what a refusal means, the user, department and
  card records, and the portrait file rules. A portrait's dimensions are
  read only once its name, size and JPEG start have passed.
- `portrait`: the portrait upload list.
- `text`: the character-level text operations the rest is built from.

Outside crates do the work they are good at behind small trusted wrappers
whose contracts name their results: `csv` reads and writes CSV, `serde_json`
parses replies, and `imagesize` reads an image's dimensions.

`app/` is the page around the library: the static HTML, and the browser
code that talks to the reader and to Net2 and renders the state.
