# arch_mirror

A small Arch Linux package mirror. `src/` is the library, proved with Verus:

- `download`: download URLs, the decisions of the download loop, and
  `PackageDownloader`, the buffered reader over the chunks of a download, whose
  contracts state that bytes come out exactly as they arrived.
- `server`: client ids and the registry of client tasks of the hyper server;
  a new client's id is never one already registered.
- `server_v2`: the file response of the `/mirror` route (its
  `Content-Disposition` header) and the stream item for each read of a file.
- `db`: where the package database is unpacked, its decompression, and the
  parser of its `desc` files.
- `byte_buf`: the trusted declarations for `bytes::Bytes`.

`app/` is the program around it: the servers, the download tasks, the
filesystem and network work, and the tokio, futures and axum traits on copies
of the library's types.
