//! oyomi: render Office documents (xlsx, docx, pptx) as deterministic text,
//! one keyed line per cell, row, paragraph or slide paragraph, so that a line
//! diff pairs the lines of two versions up.

pub mod dispatch;
pub mod media;
pub mod options;
pub mod package;
pub mod sheet;
pub mod slides;
pub mod sort;
pub mod text;
pub mod word;
pub mod xml;

pub use dispatch::{format_for_extension, format_of, render, run, Format, Source};
pub use media::{media, media_label, render_media, sort_media_parts, MediaPart};
pub use options::{parse_args, Keys, Options, USAGE};
pub use package::PartFault;
pub use sheet::{sheet_selected, spreadsheet, Grid, Sheet, Workbook};
pub use slides::{
    render_slide_parts, slide_events, slide_part_kind, slides, sort_slide_parts, trailing_number, SlidePart,
};
pub use text::{col_letters, esc, is_whitespace};
pub use word::{part_fault_text, word, word_events, word_xml, DOCUMENT_PART};
pub use xml::{read_events, XmlEvent};
