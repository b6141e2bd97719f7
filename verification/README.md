# gaeb-toolkit

Reads German bills of quantities (Leistungsverzeichnisse) from printed documents and from
GAEB files, checks and repairs them, and writes GAEB files.

- `src/` is the library. Every function states in its contract what it returns, and Verus
  proves it. What comes from other crates (regular expressions, XML, decimal arithmetic,
  images, hashes) stands behind small wrappers whose contracts say what is relied on.
- `tests/` runs the library on concrete documents.
- `app/` is the command line and the web service: files, processes, database, mail.

## Where things are

| Modules | What they do |
| --- | --- |
| `parser`, `four_part_parser`, `pdf_reader` | text of a printed bill into a tree of headings and positions |
| `placeholder_oz`, `reference_cleanup`, `layout_reference_cleanup`, `pdf_cleanup`, `title_cleanup`, `price_cleanup`, `provisional_validation` | repairs of what print gets wrong |
| `gaeb90`, `gaeb2000`, `gaeb_reader`, `outline` | GAEB 90, GAEB DA 2000 and GAEB DA XML into documents and bills |
| `gaeb90_export`, `gaeb2000_export`, `gaeb_xml`, `x83`, `priced_export`, `export` | bills and documents into files |
| `inline_png`, `pictures`, `provisional_xml` | images and marks in written files |
| `accounts`, `billing`, `events`, `jobs`, `processing`, `desk`, `imprint`, `settings`, `filenames`, `web` | rules of the conversion service |
| `bill_laws`, `repair_laws`, `text_laws`, `provisional_laws`, `gaeb90_laws`, `gaeb2000_laws`, `gaeb_xml_laws` | what holds across functions: that files read back, that repairs lose nothing |
| `text`, `decimal`, `patterns`, `xml`, `layout`, `tree`, `model`, `document`, `order`, `clock`, `breakdown` | what the others are built on |

## Command line

```
gaeb-toolkit parse angebot.pdf --xml angebot.xml --json angebot.json --x83 angebot.x83
gaeb-toolkit convert-gaeb lv.d83 --x83 lv.x83
gaeb-toolkit serve
```

Reading a PDF needs `pdftotext` and `pdftohtml` of Poppler, and for scans `pdftoppm` and
`tesseract`.
