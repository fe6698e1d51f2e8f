# rdwarfs

A reader for [DwarFS](https://github.com/mhx/dwarfs) images, verified with
[Verus](https://github.com/verus-lang/verus).

DwarFS is a read-only filesystem image format built for deduplication and
compression. Images of format version 2.5 are read. FLAC and RICEPP
compressed sections are recognised but not decoded. A brotli stream longer
than eleven mebibytes is refused.

## Layout

| Directory | Contents |
| --- | --- |
| `src/format` | Sections, their headers and hashes, the section index, history |
| `src/compression` | Section payloads to bytes |
| `src/metadata` | Thrift compact schemas, Frozen2 layouts, FSST, the metadata tables |
| `src/fs` | Inodes, directories, file contents, the block cache, globs, extraction plans |
| `src/fuse.rs` | Answers to a kernel's requests |
| `src/cli` | Argument values and the texts the tools print |
| `app` | The tools themselves: files, the kernel, threads |
| `tests` | Tests of the compiled library |

Everything under `src` is checked by Verus. What a function computes is
stated in its contract over mathematical values: the bytes of a file are a
function of the bytes of the image, and an error comes with the inputs on
which it comes. A source whose own reads can fail adds its I/O errors to
those; when they come is up to the source. Codecs and hashes are calls into
other crates. Each stands behind a small wrapper whose contract says what is
taken on trust.

Beside the contracts stand laws over several functions: that a walk is the
tree in pre-order and its paths lead back to what it yields, that a listed
directory has its lister as parent, that the sections of an image tile it,
that reads keep a cache within its budget.

## Reading

```rust,ignore
use rdwarfs::format::Image;
use rdwarfs::fs::{BlockCache, Filesystem};

let fs = Filesystem::open(Image::from_vec(bytes)?)?;
let node = fs.lookup(b"/usr/bin/tool")?;
let whole = fs.read_file(node.inode)?;

let mut cache = BlockCache::new(8 << 20);
let part = fs.read_at(node.inode, 0, 4096, &mut cache)?;
```

An image is read through an `ImageSource`. `Vec<u8>` is one, and
`SliceSource` borrows its bytes. `FileSource` reads positionally through a
function that it is given, so an I/O fault surfaces as an error.
`WindowedSource` restricts another source to a byte range, which is how an
image embedded in a larger file is opened.

## Tools

```
dwarfsck -i image.dwarfs --check-integrity
dwarfsextract -i image.dwarfs -o ./out
dwarfsextract -i packed.bin -O 100000 --image-size 504618 -o ./out
dwarfs image.dwarfs /mnt/point
```
