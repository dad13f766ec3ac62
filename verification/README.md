# cearaafis

A fingerprint feature extraction and matching library whose integer core is
verified with Verus.

## Layout

- `src/` — the verified library:
  - `primitives/` — points, rectangles, integer and boolean matrices, block
    maps, histogram cubes, ring buffers, lists and a priority queue, each
    with a view and a contract;
  - `extractor/` — the image pipeline on integers: contrast masks,
    vote filters, binarization and cleanup, thinning, skeleton tracing into
    a graph, and the graph filters (dots, pores, gaps, tails, fragments);
  - `extractor_minutiae/`, `extractor_skeletons/` — pixel-level minutia
    collection and skeleton tracing;
  - `features/` — the feature records (minutiae, ridges, edges);
  - `matcher/` — the integer neighbour search used to build edge tables;
  - `image_decode.rs` — gray-level decoding through the `image` crate.
- `tests/` — the test suite.
- `app/` — the program around the library: reading images, the
  floating-point stages (orientations, equalization, angles, scoring) and
  serialization.
