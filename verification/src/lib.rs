//! Read the logical lines of a seekable byte source in reverse order, last
//! line first, without loading the whole source into memory.
//!
//! The reader walks backward over the source in fixed-size chunks, locates
//! line boundaries (`LF` alone or `CR` `LF`), absorbs one trailing terminator
//! at construction so the first produced line is real content, and decodes
//! each recovered byte span as UTF-8.

mod laws;
mod model;
mod reader;
mod source;

pub use laws::{
    cr_free, crlf_free, joinable_lf, lemma_chunk_size_irrelevant, lemma_crlf_matches_lf,
    lemma_empty_source, lemma_first_line_untouched, lemma_round_trip,
    lemma_terminated_line_count, lf_free, plain_lines,
};

pub use reader::{LineError, ReverseLines, utf8_decode};
pub use source::{ByteSource, IoError, SliceSource};
pub use model::{
    chunk_start_of, count_lf, count_lf_upto, cr_skip, emit_all, join_crlf, join_lf, last_lf,
    lines_of, norm_pos, step_line, step_pos, CR_BYTE, LF_BYTE,
};
