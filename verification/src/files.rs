//! The decisions that surround the reading and writing of files: which
//! compression a file is written or read with, and in which format an
//! annotation file is to be read. The files themselves are opened elsewhere.

use vstd::prelude::*;
use crate::text::reads;

verus! {

/// How an output file is to be written.
#[derive(Debug, Clone, Copy, PartialEq, Eq, Structural)]
pub enum WriterKind {
    /// Without compression.
    Plain,
    /// As a gzip stream of the given level.
    Gzip(u32),
    /// As a zstandard stream of the given level.
    Zstd(u32),
}

/// The compression that a caller asked for is not known.
#[derive(Debug, Clone, Copy, PartialEq, Eq, Structural)]
pub struct UnsupportedCompression;

/// The level of a gzip stream where the caller names none.
pub const DEFAULT_GZIP_LEVEL: u32 = 6;

/// The level of a zstandard stream where the caller names none.
pub const DEFAULT_ZSTD_LEVEL: u32 = 3;

/// The level that the caller named, or `default`.
pub open spec fn level_or(level: Option<u32>, default: u32) -> u32 {
    match level {
        Some(l) => l,
        None => default,
    }
}

/// How a file is written for the compression and level that a caller named.
pub open spec fn writer_kind_of(compression: Option<Seq<char>>, level: Option<u32>) -> Result<
    WriterKind,
    UnsupportedCompression,
> {
    match compression {
        None => Ok(WriterKind::Plain),
        Some(name) => if name == "gzip"@ {
            Ok(WriterKind::Gzip(level_or(level, DEFAULT_GZIP_LEVEL)))
        } else if name == "zstandard"@ {
            Ok(WriterKind::Zstd(level_or(level, DEFAULT_ZSTD_LEVEL)))
        } else {
            Err(UnsupportedCompression)
        },
    }
}

/// The name that a caller gave, as a model.
pub open spec fn name_view(name: Option<&String>) -> Option<Seq<char>> {
    match name {
        Some(s) => Some(s@),
        None => None,
    }
}

/// Decides how an output file is to be written: plainly where no
/// compression is named, as `gzip` or `zstandard` where one of these is
/// named, at the level given or at the default level of that compression.
/// Any other name is rejected.
pub fn writer_kind(compression: Option<&String>, compression_level: Option<u32>) -> (r: Result<
    WriterKind,
    UnsupportedCompression,
>)
    ensures
        r == writer_kind_of(name_view(compression), compression_level),
{
    match compression {
        None => Ok(WriterKind::Plain),
        Some(name) => {
            if reads(name, "gzip") {
                let level = match compression_level {
                    Some(l) => l,
                    None => DEFAULT_GZIP_LEVEL,
                };
                Ok(WriterKind::Gzip(level))
            } else if reads(name, "zstandard") {
                let level = match compression_level {
                    Some(l) => l,
                    None => DEFAULT_ZSTD_LEVEL,
                };
                Ok(WriterKind::Zstd(level))
            } else {
                Err(UnsupportedCompression)
            }
        },
    }
}

/// How an input file is compressed.
#[derive(Debug, Clone, Copy, PartialEq, Eq, Structural)]
pub enum Compression {
    Gzip,
    Zstd,
    Uncompressed,
}

/// The compression of an input file: gzip where the file starts with a gzip
/// header, else zstandard where its name ends in `zst`, else none.
pub open spec fn compression_of(gzip_header: bool, extension: Option<Seq<char>>) -> Compression {
    if gzip_header {
        Compression::Gzip
    } else if extension == Some("zst"@) {
        Compression::Zstd
    } else {
        Compression::Uncompressed
    }
}

/// Determines the compression of an input file from whether it starts with
/// a gzip header and from the extension of its name.
pub fn detect_compression(gzip_header: bool, extension: Option<&String>) -> (r: Compression)
    ensures
        r == compression_of(gzip_header, name_view(extension)),
{
    if gzip_header {
        Compression::Gzip
    } else {
        match extension {
            Some(ext) => {
                if reads(ext, "zst") {
                    Compression::Zstd
                } else {
                    Compression::Uncompressed
                }
            },
            None => Compression::Uncompressed,
        }
    }
}

/// In which format an annotation file is to be read.
#[derive(Debug, Clone, Copy, PartialEq, Eq, Structural)]
pub enum AnnotationFormat {
    Gff,
    Gtf,
    /// The name does not tell: the file is read as GFF, and as GTF where
    /// that fails.
    GffThenGtf,
}

/// The format that an extension names.
pub open spec fn format_of(extension: Seq<char>) -> AnnotationFormat {
    if extension == "gff"@ {
        AnnotationFormat::Gff
    } else if extension == "gtf"@ {
        AnnotationFormat::Gtf
    } else {
        AnnotationFormat::GffThenGtf
    }
}

/// The format of an annotation file: that of its extension, or, where the
/// extension is `gz`, that of the extension below it.
pub open spec fn annotation_format_of(extension: Seq<char>, inner: Option<Seq<char>>) -> Option<
    AnnotationFormat,
> {
    if extension == "gz"@ {
        match inner {
            Some(e) => Some(format_of(e)),
            None => None,
        }
    } else {
        Some(format_of(extension))
    }
}

/// Decides from its extension in which format an annotation file is to be
/// read. `inner_extension` is the extension that is left when the last one
/// is taken off. There is no answer for a name that ends in `gz` and has no
/// extension below that.
pub fn annotation_format(extension: &String, inner_extension: Option<&String>) -> (r: Option<
    AnnotationFormat,
>)
    ensures
        r == annotation_format_of(extension@, name_view(inner_extension)),
{
    let deciding = if reads(extension, "gz") {
        match inner_extension {
            Some(e) => e,
            None => {
                return None;
            },
        }
    } else {
        extension
    };
    if reads(deciding, "gff") {
        Some(AnnotationFormat::Gff)
    } else if reads(deciding, "gtf") {
        Some(AnnotationFormat::Gtf)
    } else {
        Some(AnnotationFormat::GffThenGtf)
    }
}

} // verus!
