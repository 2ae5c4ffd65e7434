//! What an archive holds, for people.

use vstd::prelude::*;

use crate::archive::archive_holds;
use crate::header::Header;
use crate::human::{kilobytes_text, push_kilobytes};
use crate::pmtiles::{metadata_read, opened, PmtError, PmtErrorView, PmtReader};
use crate::text::{decimal, push_decimal, push_text};

verus! {

/// What an archive says of itself.
pub struct InspectReport {
    pub min_zoom: u8,
    pub max_zoom: u8,
    pub tile_count: u64,
    pub metadata_json: String,
    pub archive_size_bytes: u64,
}

/// A report with its text as a sequence of characters.
pub struct ReportView {
    pub min_zoom: u8,
    pub max_zoom: u8,
    pub tile_count: u64,
    pub metadata_json: Seq<char>,
    pub archive_size_bytes: u64,
}

impl View for InspectReport {
    type V = ReportView;

    open spec fn view(&self) -> ReportView {
        ReportView {
            min_zoom: self.min_zoom,
            max_zoom: self.max_zoom,
            tile_count: self.tile_count,
            metadata_json: self.metadata_json@,
            archive_size_bytes: self.archive_size_bytes,
        }
    }
}

/// What inspecting an archive gives; nothing where the archive points outside
/// itself. Metadata that cannot be read counts as an empty object.
pub open spec fn report_of(archive: Seq<u8>, size: u64) -> Option<
    Result<ReportView, PmtErrorView>,
> {
    match opened(archive) {
        None => None,
        Some(Err(e)) => Some(Err(e)),
        Some(Ok((h, _))) => match metadata_read(archive, h) {
            None => None,
            Some(meta) => Some(
                Ok(
                    ReportView {
                        min_zoom: h.min_zoom,
                        max_zoom: h.max_zoom,
                        tile_count: h.tile_entries,
                        metadata_json: match meta {
                            Ok(text) => text,
                            Err(_) => "{}"@,
                        },
                        archive_size_bytes: size,
                    },
                ),
            ),
        },
    }
}

/// Inspect the archive held in `archive`, a file of the given size; `None`
/// where the archive points outside itself.
pub fn inspect(archive: &[u8], archive_size_bytes: u64) -> (r: Option<
    Result<InspectReport, PmtError>,
>)
    ensures
        match report_of(archive@, archive_size_bytes) {
            None => r is None,
            Some(Ok(v)) => r matches Some(Ok(i)) && i@ == v,
            Some(Err(e)) => r matches Some(Err(x)) && x@ == e,
        },
{
    let reader = match PmtReader::try_open(archive) {
        None => return None,
        Some(Err(e)) => return Some(Err(e)),
        Some(Ok(reader)) => reader,
    };
    let metadata_json = match reader.try_metadata() {
        None => return None,
        Some(Ok(text)) => text,
        Some(Err(_)) => "{}".to_owned(),
    };
    Some(
        Ok(
            InspectReport {
                min_zoom: reader.min_zoom(),
                max_zoom: reader.max_zoom(),
                tile_count: reader.tile_count(),
                metadata_json,
                archive_size_bytes,
            },
        ),
    )
}

/// The lines of a report in front of the metadata.
pub open spec fn summary_text(v: ReportView) -> Seq<char> {
    "PMTiles archive\n  zoom range : "@ + decimal(v.min_zoom as nat) + "-"@ + decimal(
        v.max_zoom as nat,
    ) + "\n  tiles      : "@ + decimal(v.tile_count as nat) + "\n  archive    : "@ + decimal(
        v.archive_size_bytes as nat,
    ) + " bytes ("@ + kilobytes_text(v.archive_size_bytes as int) + ")\n  metadata   :\n"@
}

impl InspectReport {
    /// The lines of the report in front of the metadata.
    pub fn summary(&self) -> (r: String)
        ensures
            r@ == summary_text(self@),
    {
        let mut r = "PMTiles archive\n  zoom range : ".to_owned();
        push_decimal(&mut r, self.min_zoom as u64);
        push_text(&mut r, "-");
        push_decimal(&mut r, self.max_zoom as u64);
        push_text(&mut r, "\n  tiles      : ");
        push_decimal(&mut r, self.tile_count);
        push_text(&mut r, "\n  archive    : ");
        push_decimal(&mut r, self.archive_size_bytes);
        push_text(&mut r, " bytes (");
        push_kilobytes(&mut r, self.archive_size_bytes);
        push_text(&mut r, ")\n  metadata   :\n");
        r
    }
}

/// The report on an archive tells what was written into it: the zooms and the number of
/// tiles of its header, its metadata, and its size.
pub proof fn reports_tell_what_was_written(
    archive: Seq<u8>,
    h: Header,
    text: Seq<char>,
    tile: spec_fn(u64) -> Option<Seq<u8>>,
    size: u64,
)
    requires
        archive_holds(archive, h, text, tile),
    ensures
        report_of(archive, size) == Some(
            Ok::<ReportView, PmtErrorView>(
                ReportView {
                    min_zoom: h.min_zoom,
                    max_zoom: h.max_zoom,
                    tile_count: h.tile_entries,
                    metadata_json: text,
                    archive_size_bytes: size,
                },
            ),
        ),
{
}

/// The lines in front of the metadata tell the zooms, the number of tiles and the size.
pub proof fn summaries_tell_the_numbers(v: ReportView)
    ensures
        summary_text(v) == "PMTiles archive\n  zoom range : "@ + decimal(v.min_zoom as nat) + "-"@
            + decimal(v.max_zoom as nat) + "\n  tiles      : "@ + decimal(v.tile_count as nat)
            + "\n  archive    : "@ + decimal(v.archive_size_bytes as nat) + " bytes ("@
            + kilobytes_text(v.archive_size_bytes as int) + ")\n  metadata   :\n"@,
{
}

} // verus!
