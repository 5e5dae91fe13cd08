# iso_ripper

Reads optical disc images: tells what an image holds (ISO 9660, Joliet, Rock Ridge, UDF, El Torito),
writes an index of its files, and extracts the files with an extension.

The library under `src/` is written in Verus: what each function computes is stated in its contract
and proved. It does no input or output. The program under `app/` opens the images, hands the library
what was read, and does what the library decides. ISO 9660 file systems are read with the crate
`cdfs`, which needs the FUSE library of the system to build.

| module       | what it does                                                           |
|--------------|------------------------------------------------------------------------|
| `bytes`      | integers and marks inside a block of bytes                             |
| `text`       | trimming, padding, numbers in words                                    |
| `timestamp`  | moments as images record them, and in writing (RFC 3339)               |
| `probe`      | which file systems an image holds, going by its volume descriptors     |
| `iso`        | names, paths and counts on a walk through an ISO 9660 file system      |
| `udf`        | opening a UDF volume, listing its files, copying their contents        |
| `index`      | the text of an index                                                   |
| `iso_index`  | how the index of an ISO 9660 file system follows the walk through it   |
| `extract`    | which files to extract, and where to                                   |
| `progress`   | counting the images that have been worked through                      |
| `report`     | the table and the summary of a directory of images                     |

Public proof functions whose names begin with `law_` state what holds of the library as a whole:
that a walk lists every file of a volume and nothing else, that extraction stays inside its output
directory, that an index can be read back, and so on.
