use vstd::prelude::*;

use crate::types::{ImageId, ImageRecord};
use crate::xmp::{ExportEntry, ExportResult, ExportVerdict};

verus! {

/// A verdict for one image as the user interface sends it: `"keeper"`,
/// `"reject"`, or anything else for unrated.
#[derive(Debug, Clone)]
pub struct ExportImageVerdict {
    pub image_id: ImageId,
    pub verdict: String,
}

/// Summary of an export for the user interface.
#[derive(Debug, Clone)]
pub struct ExportResponse {
    pub files_written: usize,
    pub files_skipped: usize,
    pub errors: Vec<String>,
}

/// The export verdict a verdict name stands for.
pub open spec fn spec_export_verdict(name: Seq<char>) -> ExportVerdict {
    if name == "keeper"@ {
        ExportVerdict::Keeper
    } else if name == "reject"@ {
        ExportVerdict::Reject
    } else {
        ExportVerdict::Unrated
    }
}

pub(crate) fn same_text(a: &str, b: &str) -> (r: bool)
    ensures
        r == (a@ == b@),
{
    let n = a.unicode_len();
    if n != b.unicode_len() {
        return false;
    }
    let mut i: usize = 0;
    while i < n
        invariant
            i <= n,
            n == a@.len(),
            n == b@.len(),
            forall|j: int| 0 <= j < i ==> a@[j] == b@[j],
        decreases n - i,
    {
        if a.get_char(i) != b.get_char(i) {
            return false;
        }
        i = i + 1;
    }
    assert(a@ =~= b@);
    true
}

/// Reads a verdict name (see `spec_export_verdict`).
pub fn parse_export_verdict(name: &str) -> (r: ExportVerdict)
    ensures
        r == spec_export_verdict(name@),
{
    if same_text(name, "keeper") {
        ExportVerdict::Keeper
    } else if same_text(name, "reject") {
        ExportVerdict::Reject
    } else {
        ExportVerdict::Unrated
    }
}

/// Some loaded image carries this id.
pub open spec fn has_image(images: Seq<ImageRecord>, id: ImageId) -> bool {
    exists|k: int| 0 <= k < images.len() && images[k].id == id
}

/// Index of the last loaded image that carries `id`.
pub open spec fn last_image_index(images: Seq<ImageRecord>, id: ImageId) -> int {
    choose|k: int|
        0 <= k < images.len() && images[k].id == id && forall|j: int|
            k < j < images.len() ==> images[j].id != id
}

/// The export entries for the user's verdicts: one per verdict whose image is
/// loaded (the last image with that id), in verdict order; verdicts for
/// unknown images are dropped.
pub open spec fn spec_export_entries(images: Seq<ImageRecord>, verdicts: Seq<ExportImageVerdict>) -> Seq<(Seq<char>, ExportVerdict)>
    decreases verdicts.len(),
{
    if verdicts.len() == 0 {
        seq![]
    } else {
        let rest = spec_export_entries(images, verdicts.drop_last());
        let v = verdicts.last();
        if has_image(images, v.image_id) {
            rest.push(
                (
                    images[last_image_index(images, v.image_id)].file_path@,
                    spec_export_verdict(v.verdict@),
                ),
            )
        } else {
            rest
        }
    }
}

/// Path and verdict of export entries.
pub open spec fn entry_views(entries: Seq<ExportEntry>) -> Seq<(Seq<char>, ExportVerdict)> {
    entries.map_values(|e: ExportEntry| (e.raw_file_path@, e.verdict))
}

fn find_last_image(images: &[ImageRecord], id: ImageId) -> (r: Option<usize>)
    ensures
        match r {
            Some(k) => has_image(images@, id) && k == last_image_index(images@, id) && k < images@.len(),
            None => !has_image(images@, id),
        },
{
    let mut k: usize = images.len();
    while k > 0
        invariant
            k <= images@.len(),
            forall|j: int| k <= j < images@.len() ==> images@[j].id != id,
        decreases k,
    {
        if images[k - 1].id == id {
            let ghost f = last_image_index(images@, id);
            assert(images@[k - 1].id == id);
            assert(f == k - 1) by {
                if f < k - 1 {
                    assert(images@[k - 1].id != id);
                }
            }
            return Some(k - 1);
        }
        k = k - 1;
    }
    None
}

/// Turns the user's verdicts into export entries (see `spec_export_entries`).
pub fn export_entries(images: &[ImageRecord], verdicts: &[ExportImageVerdict]) -> (r: Vec<ExportEntry>)
    ensures
        entry_views(r@) == spec_export_entries(images@, verdicts@),
{
    let mut entries: Vec<ExportEntry> = Vec::new();
    let mut i: usize = 0;
    while i < verdicts.len()
        invariant
            i <= verdicts@.len(),
            entry_views(entries@) == spec_export_entries(images@, verdicts@.take(i as int)),
        decreases verdicts@.len() - i,
    {
        assert(verdicts@.take(i + 1).drop_last() =~= verdicts@.take(i as int));
        let v = &verdicts[i];
        match find_last_image(images, v.image_id) {
            Some(k) => {
                let verdict = parse_export_verdict(v.verdict.as_str());
                let ghost before = entries@;
                entries.push(ExportEntry { raw_file_path: images[k].file_path.clone(), verdict });
                assert(entry_views(entries@) =~= entry_views(before).push(
                    (images@[k as int].file_path@, verdict),
                ));
            },
            None => {},
        }
        i = i + 1;
    }
    assert(verdicts@.take(i as int) =~= verdicts@);
    entries
}

/// The error lines of an export, each `path: reason`.
pub open spec fn error_lines(errors: Seq<(String, String)>) -> Seq<Seq<char>> {
    errors.map_values(|e: (String, String)| e.0@ + ": "@ + e.1@)
}

/// The summary of an export that the user interface shows.
pub fn export_response(result: &ExportResult) -> (r: ExportResponse)
    ensures
        r.files_written == result.files_written,
        r.files_skipped == result.files_skipped,
        r.errors@.map_values(|s: String| s@) == error_lines(result.errors@),
{
    let mut lines: Vec<String> = Vec::new();
    let mut i: usize = 0;
    while i < result.errors.len()
        invariant
            i <= result.errors@.len(),
            lines@.map_values(|s: String| s@) == error_lines(result.errors@.take(i as int)),
        decreases result.errors@.len() - i,
    {
        let mut line = result.errors[i].0.clone();
        line.append(": ");
        line.append(result.errors[i].1.as_str());
        let ghost before = lines@;
        lines.push(line);
        assert(lines@.map_values(|s: String| s@) =~= before.map_values(|s: String| s@).push(line@));
        assert(error_lines(result.errors@.take(i + 1)) =~= error_lines(result.errors@.take(i as int)).push(
            result.errors@[i as int].0@ + ": "@ + result.errors@[i as int].1@,
        ));
        i = i + 1;
    }
    assert(result.errors@.take(i as int) =~= result.errors@);
    ExportResponse {
        files_written: result.files_written,
        files_skipped: result.files_skipped,
        errors: lines,
    }
}

} // verus!
