# Mailman

An offline-first desktop API client: requests grouped in collections and folders, encrypted
environments, imports from Postman, and password-protected bundles for sharing.

- `src/` is the library. Every function has a contract, and Verus proves it. What the contracts
  speak of are views: texts as sequences of characters, tables as maps, records as records of such
  values.
- `tests/` runs the library on concrete values.
- `app/` is the desktop program: files, network, threads and windows. It holds no rules of its own;
  it reads and writes, and asks the library what to do.

Calls into other crates (serde_json, regex, flate2, base64, argon2, chacha20poly1305, rand and
reqwest's header types) stand behind small functions marked `external_body`, each with a comment
that says what is believed of the call. The public functions named `law_..` state what holds across
several operations.
