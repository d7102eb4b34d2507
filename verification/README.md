# tirra

An encrypted notebook: text entries kept in a SQLite database that is
encrypted page by page with ChaCha20-Poly1305, under a key derived from a
passphrase with PBKDF2-HMAC-SHA256 (64007 iterations).

## Layout

- `src/` is the library, verified with Verus:
  - `crypto/` holds the page cipher and the older fixed-seed file cipher;
  - `storage/` holds the encryption of whole database files, the age scrypt
    file format, the entry list and the synchronisation decision;
  - `ui/` holds the state of the login and editor pages and the command line;
  - `gui/` and `gui_iced/` hold the login pages, the choice of the theme and
    the switching between pages.
  Every function states its behaviour in `requires`/`ensures`; the round trips
  (page, file, age header and file, base64, decimal) and the page laws are
  proved as public proof functions.
- `app/` is the command line: it reads the passphrase, runs SQLite on the
  decrypted database in memory, and writes the encrypted file back.
- `tests/` holds the tests of the library.

## File format

The pages of a database file are numbered from 0: the first page, which
keeps its 24-byte header in clear with the salt over its first 16 bytes, is
page 0. The page number enters the ChaCha20 block counter of each page, so
a file is read back only under the numbering it was written with: a file
whose pages were numbered from 1 does not decrypt here, and the reverse.
`Cipher::encrypt` turns `N` bytes into `N + 32`: the encrypted bytes, the
16-byte nonce, then the Poly1305 tag of all that precedes it.

Each page's nonce is drawn at random. A draw that would run the ChaCha20
block counter out for the page is refused (`Format`);
`Cipher::encrypt_with_drawn_nonce` states the result for every nonce.
