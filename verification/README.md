# ntfs_forensic

A forensic NTFS reader and anomaly auditor whose logic is stated in contracts and proved
with Verus.

The library decodes the on-disk structures of an NTFS volume and grades what it finds for
an examiner. Every function says in its contract what it returns for every input,
malformed bytes included; each error is tied to the inputs that cause it. That a
source failed for a reason of its own is reported only by a function that may have asked
it for bytes.

| Module | What it decides |
|---|---|
| `boot`, `record`, `attribute`, `attribute_list`, `index`, `runlist` | volume geometry, MFT records and their fixup, attributes, directory indexes, data runs |
| `standard_information`, `file_name`, `time`, `text` | the two timestamp sets, names, UTF-16 |
| `data`, `compress` | file contents through runs, holes and compression units |
| `fs`, `vfs` | a mounted volume: records, paths, streams, listings, deleted files, free space |
| `node`, `reparse`, `bitmap` | file metadata, links and special files, free clusters |
| `carve`, `audit`, `mftmirr` | carving, timestomping, alternate streams, slack, mirror and log checks |
| `logfile`, `usn` | `$LogFile` pages, operations and transactions; the USN change journal |
| `source` | where bytes come from: a trait, a memory buffer, a partition window |

Functions whose names begin with `law_` state what holds of the library as a whole: that a
window of a stream agrees with the whole, that free space is exactly the clear bits of the
bitmap, that every log record stands in exactly one transaction, and so on.

`app/` connects the library to `std::io` readers, to the shared report model and to the
shared virtual filesystem. `tests/` runs the library on concrete values.
