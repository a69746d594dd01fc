//! Writes PDF 1.7 files: a header, numbered indirect objects at recorded byte
//! offsets, a cross-reference table built from those offsets, and a trailer.
//!
//! [`Writer`] appends bytes to a [`ByteSink`] and counts them; the count is the
//! byte offset that every cross-reference entry is taken from.
//! [`Document`] holds the objects and writes the whole file through a writer.

mod document;
mod format;
mod laws;
mod writer;

pub use document::{
    body_bytes, check, ends_name, first_given_length, has_length_key, length_key_at, names_length, closing, document_bytes, encode_object, first_gap, free_entry, header,
    object_bytes, object_offset, objects_bytes, too_large, trailer, xref_entries, xref_section,
    xref_start, Body, Document, IndirectObject, Invalid, WriteError, OFFSET_LIMIT,
};
pub use format::{ascii, decimal, digit, padded, push_decimal, push_padded};
pub use laws::{
    lemma_objects_at_offsets, lemma_offset_accuracy, lemma_startxref_points_at_xref,
    lemma_stream_length, lemma_xref_exact, total_len,
};
pub use writer::{BoundedSink, ByteSink, SinkFull, Writer};
