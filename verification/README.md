# fishsense-laz

Converts fishsense-mobile captures, an RGB JPEG and an ARKit LiDAR depth map in a
row of a SQLite database, into LAZ point clouds.

Each photo becomes one file. Every depth pixel that is finite, above zero and
trusted enough is unprojected through the camera matrix and takes the colour of
the RGB pixel at its centre. Where it is asked for, the depth map is first
upsampled with the image as a guide (joint bilateral upsampling).

## Layout

- `src/` is the library. Every function in it is verified with Verus against the
  contract that it states; laws that span functions are proof functions named
  `law_*`.
- `app/` is the command line around it: arguments, the database, files, threads,
  the LAZ writer, and the two functions of floating point that the library is
  handed, `exp` and `tan`.
- `tests/` run the library on concrete values and compare its arithmetic with that
  of the machine.

| Module | What it holds |
|---|---|
| `decode` | depth, confidence and camera-matrix blobs |
| `photo` | the image, decoded by the `image` crate |
| `jpeg` | headers of a JPEG file: whether the decoder has room for its components |
| `unproject` | depth map and image to coloured points |
| `upsample` | joint bilateral upsampling |
| `blending` | proofs that upsampled depth stays among the measured depths |
| `write` | points to LAS records and the offset of the file |
| `convert` | these steps in their order, for one photo |
| `db` | queries, rows, paths |
| `listing` | the `list` command |
| `batch` | the `convert` command |
| `calendar`, `text` | time stamps and padded columns |
| `double`, `rounding` | floating-point numbers as bit patterns, rounded as IEEE 754 prescribes |

## What is taken on trust

The four wrappers in `photo`: around `image::guess_format`,
`image::ImageFormat::from_extension`, `image::ImageReader::decode`, and the words of
`image::ImageError` for an extension that stands for no format. `anyhow` puts a
failure of the decoder and its causes into one line. Of the samples that the decoder
gives, only their number is stated. JPEG files whose components are laid out in a way
that makes the decoder panic are refused before it is called.

## Usage

```sh
fishsense-laz list --db /path/to/database.sqlite
fishsense-laz convert --db /path/to/database.sqlite --ids 18,19,20 --out ./clouds
fishsense-laz convert --db /path/to/database.sqlite --all --out ./clouds --upsample 8
```

A row without a camera matrix needs `--intrinsics fx,fy,cx,cy`, or else
`--hfov-degrees N`. `--all` takes the photos that have a depth map and a camera
matrix; where one of these two is given, it takes every photo that has a depth map.
Files are named `photo-{id:06}-{utc_unix_timestamp}.laz`. A
photo that fails is reported and the run goes on; it exits with an error only if
every photo failed.
