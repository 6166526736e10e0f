# xteink_x4

The verified core of a light e-reader firmware, written in Verus.

`src/` is the library; every function in it carries a contract that Verus
proves:

- `zip`, `zip_stream`: ZIP archives held in memory or read through a
  random-access reader (DEFLATE itself is `miniz_oxide`'s).
- `xml`, `strs`: the small XML scanner the parsers use, over UTF-8 bytes.
- `epub`: the container and package documents, chapters, and XHTML chapters
  turned into styled text runs.
- `fb`, `pbm`: the 800 x 480 one-bit framebuffer and its plain PBM image.
- `layout`: the fixed-capacity arena of UI nodes.
- `book`, `catalog`: book metadata, the shelf and the built-in demo book.
- `library`: which card files are books, and the catalog snapshot kept on
  the card.
- `hl`: the trusted declarations for `heapless`'s collections.

`app/` holds the I/O around it: the SD card through `embedded-sdmmc`, and
writing previews to disk. `tests/` exercises the library on concrete values.
