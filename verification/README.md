# znet_core

The engine behind Zap (file transfer over the local network) and Zulu (clipboard sync), written in
Verus. The rules of the programs, from routes and wire formats to what their windows show, are
functions of this library with proved contracts. Sockets, files, threads, drawing, the clipboard and
the floating-point speed display live in `app/`.

## Layout

- `src/` is the library.
  - Text and bytes: `text`, `num`, `bytes`, `json`, `base64`, `url`, `paths`.
  - The web server: `auth`, `routes`, `reply`, `listing`, `download`, `upload`, `stats`, `crc`,
    `zip`, `server_info`.
  - Live events and clips: `events`, `sse`, `clips`, `sync`, `image_clip`, `pins`.
  - The fast lane, a transport between native apps: `fast_wire`, `fast_server`, `fast_client`, with
    its fallback in `http_client` and `link`.
  - Certificates and pinning: `tls`.
  - What people see: `display`, `panel`, `session`, `status_json`, `qr`, `png`.
  - Android devices over USB: `adb`.
- `tests/` runs the library on concrete values.
- `app/` is the `zap` program: command line, server, clients, windows and the Android bridge.

## What is trusted

Functions marked `external_body` and the `assume_specification` items stand for calls into `std`,
`image`, `qrcode`, `sha2`, `rcgen` and `rustls-pemfile`. Each says above itself what is taken for
granted.
