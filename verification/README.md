# keeper_raw

The verified core of keeper.raw, a photo-culling tool for RAW files:

- `scanner` — which files of a folder listing are RAW files, sorted by name;
- `extractor` — exiftool's EXIF JSON read into tags, the EXIF date-time
  reader (capture times in milliseconds), the order in which embedded
  previews are tried, and the assembly of an image record;
- `json` — the JSON document type that exiftool's output is read into;
- `hashing` — perceptual hashes of previews and their Hamming distance;
- `stacker` — scenes: bursts by capture time, split where the picture
  changes;
- `culling` — the keeper of each scene and every image's verdict;
- `focus` — the integer crop rules of sharpness measurement;
- `xmp`, `paths` — XMP sidecar paths and contents (paths follow Unix
  conventions: only `/` separates components);
- `commands` — what the user interface sends and is shown on export.

Every function in `src/` is verified with Verus against its contract,
except the trusted items, whose contracts Verus takes on trust:

- `hashing::hash_jpeg_double_gradient` (image's `load_from_memory` and
  image_hasher's double-gradient hash), with the name `double_gradient_hash`;
- `extractor::read_image_dimensions` (image's `ImageReader` with a guessed
  format), with the name `encoded_image_dimensions`;
- `json::parse_json` and its converter `json_from_value` (serde_json's
  `from_slice`), with the name `json_document`;
- the declarations of `image::ImageError`, `std::io::Error` and
  `serde_json::Value`.

The `law_*` proof functions state properties that span several functions.
`app/` holds the desktop shell: directory and process I/O (exiftool), the
ONNX face, landmark and sharpness models, which compute in floating point,
and the user-interface commands.
