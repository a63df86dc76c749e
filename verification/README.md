# zlack

The verified core of Zlack, a desktop wrapper for the Slack web client.

`src/` is a Verus library. Its functions carry contracts that Verus
proves; the few small wrappers around calls into `base64`, `serde_json`,
`url`, `image` and std carry contracts that are trusted, not proved, and
each says in its doc comment what it claims of the call.

The modules:

- `downloads`: base64 payload checks, file stems and extensions derived from
  caller-supplied names, image format detection, and the choice of a free
  `name (n).ext` in the Downloads folder.
- `notifications`: the context a clicked notification carries and the
  script that hands it to the page.
- `pending`: the notifications that may still be clicked, their expiry, and
  the decisions of the cleanup worker.
- `security`: which URLs are let in as Slack pages and which go to the
  system browser.
- `icons` and `overlay`: the choice of the running icon, the unread-count
  digits on the taskbar badge, and the pixel layout for the Windows icon API.
- `platform`: start-up choices for the WebView2 runtime and the download
  folder.
- `text`: the string helpers they share.

`tests/` runs the library on concrete values. `app/` holds the Tauri
application around it: commands, file and notification I/O, the
floating-point badge drawing and the Windows APIs.
