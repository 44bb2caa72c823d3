# coach_app

A desktop music player that keeps a folder of songs, flattens downloaded
osu! beatmap folders into it, and plays tracks with their cover art or
background video through a small local HTTP server.

The rules of the player live in `src/` and are verified with Verus:

- `text` — text operations (trimming, lines, words, decimal numbers) stated
  over `Seq<char>`.
- `paths` — file names, extensions, stems, sidecar files and free
  destination names.
- `osu` — artist, title, background image and video offset of a beatmap.
- `order` — the stable sort by file name and its laws.
- `library` — which files are songs, titles, hit sounds, cover choice, the
  flattening plan of a beatmap folder, the media found for a track, what is
  deleted with a track, the search box.
- `audio_server` — the registry of track media, media URLs, request routing,
  byte ranges and response headers.
- `playback` — the player state: selecting, skipping, shuffling and
  deleting tracks.
- `archive` — the files a beatmap archive (`.osz`) unpacks to.
- `clock`, `data_uri` — the wall clock and the embedded picture.

`app/` is the program around it: the window and its components, the HTTP
socket, file-system work, ffmpeg, settings and the saved track list.
