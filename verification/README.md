# rfid_thingy

An RFID reader station on an ESP32-S3: an MFRC522 reads and writes MIFARE
Classic cards, a small web API says what the reader does with the next card,
and the onboard LED shows whether the reader is active.

Layout:

- `src/` — the library, verified with Verus.
  - `chip.rs`: the commands the card logic sends to the MFRC522
    (`ChipCommands`), and `Exchange`, the record of one command and the chip's
    answer. Each command's contract adds exactly that command, with its
    arguments and the answer, to the chip's history; every contract below is
    stated over that history.
  - `rfid.rs`: `Reader`, `CardInteraction`, `SelectedCard` and
    `AuthenticatedSector`: detecting, selecting, authenticating, and reading or
    writing the blocks of one sector. Writes to a sector trailer are refused.
  - `helpers.rs`: whole operations (`read_block`, `read_sector`, `read_card`,
    `write_block`, `write_sector`, `write_card`), each one or more
    authenticated sessions, with their transcripts as spec functions and the
    laws proved about them (no trailer is ever written; accesses stay in the
    authenticated sector; the layout of a card read and of a card write).
  - `light.rs`: the decision of the LED task.
  - `lib.rs`: the shared state, operations, events and UIDs.
- `tests/` — tests of the library against a simulated card.
- `app/` — the firmware around it: the MFRC522 driver on the SPI bus, the
  async tasks, the web server, Wi-Fi, and the serde forms of the state.
