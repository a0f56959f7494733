use vstd::prelude::*;

verus! {

/// Errors of the scan processing pipeline.
///
/// Messages that an outside library reports (PDF engine, I/O) are kept as text.
#[derive(Debug, Clone, PartialEq, Eq)]
pub enum ProcessorError {
    /// A scan file name from which no counter can be read.
    FilenameParseError { filename: String, reason: String },
    /// The PDF engine could not render a scan.
    PdfRenderError { path: String, source: String },
    /// A rendered scan too narrow to be cut into two halves.
    ImageSplitError { width: u32 },
    /// The OCR engine could not be set up.
    OcrInitError(String),
    /// The OCR engine failed on an image.
    OcrProcessError(String),
    /// The recognised text holds no application number.
    ApplicationNumberNotFound { ocr_text: String },
    /// The output PDF could not be built or written.
    PdfAssemblyError(String),
    /// A file system operation failed.
    Io(String),
}

} // verus!
