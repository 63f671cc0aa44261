# xidown

Downloads the episodes of the XMTV opera programme 斗阵来看戏 and uploads them to
bilibili, one archive per play, without uploading a part twice.

- `src/` is the library, verified with Verus: planning (`catalog`), the upload ledger
  (`ledger`), the retry, submission and download decisions (`bili`, `worker`), the
  settings (`config`), the grouping of episodes into plays (`get_video_list`,
  `get_download_list`, `upload_video`), the cookie strings (`biliup_api`), the login
  screen (`login`) and the text helpers they share (`text`).
- `app/` is the program around it: logging, the network and file work, and the loops
  that perform what the library decides.
- `tests/` runs the library on concrete values.

Run with `XIDOWN_LOGIN=1` once to log in by QR code; `XIDOWN_CONCURRENCY`,
`XIDOWN_UPLOAD_LIMIT`, `XIDOWN_WORK_DIR`, `XIDOWN_ONLY_TITLE`, `XIDOWN_MAX_ARCHIVES`,
`XIDOWN_MAX_PARTS` and `XIDOWN_DRY_RUN` tune a run.
