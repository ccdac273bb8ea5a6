# draco_oxide_decoder

A Draco decoder written in Verus: the stream formats it reads are stated as
spec functions over bytes, and the decoding functions are proved against
them.

Layout of `src/`:

- `reader`, `error`, `header`, `metadata`: byte cursors (LEB128, little-endian
  words, the reverse cursor that feeds rANS), the error type, the stream
  header and the metadata section.
- `rans`, `entropy`: the rANS and rabs state machines and the symbol decoders
  built on them.
- `connectivity`: the corner table, the sequential connectivity decoder and
  the edgebreaker decoder (`edgebreaker::traversal` reads the symbol, start
  face and seam streams; `edgebreaker::reconstruct` rebuilds the corner table).
- `attribute`, `decode`: attribute descriptors and payloads, prediction
  schemes, inverse transforms, and the attribute sections of sequential and
  edgebreaker meshes.
- `point_cloud`: the kd-tree point-cloud decoder and its bit decoders.
- `io`: GLB framing and the `KHR_draco_mesh_compression` bookkeeping.
- `mesh`: triangle-mesh streams, header to attribute section.
- `decoder`: the public entry points for meshes and point clouds in portable
  (integer) form.

Floating-point dequantization is not part of the library; attributes come out
in their integer form together with the parameters that reconstruct them.

What the library does not decode:

- The attribute values of edgebreaker meshes. Sequential meshes decode end
  to end; for an edgebreaker mesh the connectivity and the framing of the
  attribute section are decoded, but the per-attribute value walks (the
  parallelogram, tex-coord and normal predictions run over the corner table)
  and the point assembly of attributes cut along seams are not here, so such
  a stream with attributes is answered with `DecodeError::Unimplemented`.
- glTF documents: only the GLB container framing and the extension's
  attribute-id table are handled, not the JSON rewriting that removes the
  extension.
