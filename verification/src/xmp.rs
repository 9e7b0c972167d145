use vstd::prelude::*;

use crate::paths::{
    directory_prefix, file_name_span, file_stem_text, law_extension_replaced, path_extension,
    replace_extension, with_extension,
};

verus! {

/// The verdict to export for one image.
#[derive(Debug, Clone, Copy, PartialEq, Eq, Structural)]
pub enum ExportVerdict {
    Keeper,
    Reject,
    Unrated,
}

/// One image to export: the path of its RAW file and its verdict.
#[derive(Debug, Clone)]
pub struct ExportEntry {
    pub raw_file_path: String,
    pub verdict: ExportVerdict,
}

/// Outcome of an export: files written, images skipped, and the sidecars
/// that could not be written with the reason.
#[derive(Debug, Clone)]
pub struct ExportResult {
    pub files_written: usize,
    pub files_skipped: usize,
    pub errors: Vec<(String, String)>,
}

/// A sidecar to write: where, and what.
#[derive(Debug, Clone)]
pub struct SidecarWrite {
    pub path: String,
    pub content: String,
}

/// Start of every sidecar, up to the rating value.
pub const XMP_HEAD: &'static str = "<?xpacket begin=\"\u{feff}\" id=\"W5M0MpCehiHzreSzNTczkc9d\"?>\n<x:xmpmeta xmlns:x=\"adobe:ns:meta/\">\n  <rdf:RDF xmlns:rdf=\"http://www.w3.org/1999/02/22-rdf-syntax-ns#\">\n    <rdf:Description rdf:about=\"\"\n      xmlns:xmp=\"http://ns.adobe.com/xap/1.0/\"\n      xmlns:dc=\"http://purl.org/dc/elements/1.1/\"\n      xmp:Rating=\"";

/// The name of this tool, as sidecars record it.
pub const CREATOR_TOOL: &'static str = "keeper.raw";

/// What follows the rating value, up to the tool's name.
pub const XMP_BEFORE_TOOL: &'static str = "\"\n      xmp:CreatorTool=\"";

/// The label attribute of a rejected image.
pub const XMP_REJECT_LABEL: &'static str = "\n      xmp:Label=\"Reject\"";

/// What follows the label attribute, up to the tool's name in the
/// description.
pub const XMP_BEFORE_DESCRIPTION_TOOL: &'static str = ">\n      <dc:description>\n        <rdf:Alt>\n          <rdf:li xml:lang=\"x-default\">Processed by ";

/// End of every sidecar.
pub const XMP_TAIL: &'static str = "</rdf:li>\n        </rdf:Alt>\n      </dc:description>\n    </rdf:Description>\n  </rdf:RDF>\n</x:xmpmeta>\n<?xpacket end=\"w\"?>";

/// Rating value written for each verdict (5 stars for keepers, -1 for
/// rejects, 0 otherwise).
pub open spec fn xmp_rating(verdict: ExportVerdict) -> Seq<char> {
    match verdict {
        ExportVerdict::Keeper => "5"@,
        ExportVerdict::Reject => "-1"@,
        ExportVerdict::Unrated => "0"@,
    }
}

/// Label attribute written for each verdict (only rejects carry one).
pub open spec fn xmp_label(verdict: ExportVerdict) -> Seq<char> {
    match verdict {
        ExportVerdict::Reject => XMP_REJECT_LABEL@,
        _ => ""@,
    }
}

/// The XMP sidecar of a verdict.
pub open spec fn xmp_content(verdict: ExportVerdict) -> Seq<char> {
    XMP_HEAD@ + xmp_rating(verdict) + XMP_BEFORE_TOOL@ + CREATOR_TOOL@ + "\""@ + xmp_label(verdict)
        + XMP_BEFORE_DESCRIPTION_TOOL@ + CREATOR_TOOL@ + XMP_TAIL@
}

/// All sidecars share one skeleton. Each starts with `XMP_HEAD` and ends
/// with `XMP_TAIL`, which closes the document with
/// `</x:xmpmeta>` and the packet end. Between them only the rating value
/// (`5`, `-1` or `0`) and, for a reject, the label attribute depend on the
/// verdict.
pub proof fn law_sidecar_skeleton(verdict: ExportVerdict)
    ensures
        xmp_content(verdict).len() >= XMP_HEAD@.len() + XMP_TAIL@.len(),
        xmp_content(verdict).take(XMP_HEAD@.len() as int) == XMP_HEAD@,
        xmp_content(verdict).skip(xmp_content(verdict).len() - XMP_TAIL@.len()) == XMP_TAIL@,
        XMP_TAIL@.skip(XMP_TAIL@.len() - "</x:xmpmeta>\n<?xpacket end=\"w\"?>"@.len())
            == "</x:xmpmeta>\n<?xpacket end=\"w\"?>"@,
        xmp_content(ExportVerdict::Keeper) == XMP_HEAD@ + "5"@ + XMP_BEFORE_TOOL@ + CREATOR_TOOL@ + "\""@
            + XMP_BEFORE_DESCRIPTION_TOOL@ + CREATOR_TOOL@ + XMP_TAIL@,
        xmp_content(ExportVerdict::Unrated) == XMP_HEAD@ + "0"@ + XMP_BEFORE_TOOL@ + CREATOR_TOOL@ + "\""@
            + XMP_BEFORE_DESCRIPTION_TOOL@ + CREATOR_TOOL@ + XMP_TAIL@,
        xmp_content(ExportVerdict::Reject) == XMP_HEAD@ + "-1"@ + XMP_BEFORE_TOOL@ + CREATOR_TOOL@ + "\""@
            + XMP_REJECT_LABEL@ + XMP_BEFORE_DESCRIPTION_TOOL@ + CREATOR_TOOL@ + XMP_TAIL@,
{
    reveal_strlit("</rdf:li>\n        </rdf:Alt>\n      </dc:description>\n    </rdf:Description>\n  </rdf:RDF>\n</x:xmpmeta>\n<?xpacket end=\"w\"?>");
    reveal_strlit("</x:xmpmeta>\n<?xpacket end=\"w\"?>");
    let c = xmp_content(verdict);
    let mid = xmp_rating(verdict) + XMP_BEFORE_TOOL@ + CREATOR_TOOL@ + "\""@ + xmp_label(verdict)
        + XMP_BEFORE_DESCRIPTION_TOOL@ + CREATOR_TOOL@;
    assert(c =~= XMP_HEAD@ + mid + XMP_TAIL@);
    assert(c.take(XMP_HEAD@.len() as int) =~= XMP_HEAD@);
    assert(c.skip(c.len() - XMP_TAIL@.len()) =~= XMP_TAIL@);
    assert(XMP_TAIL@.skip(XMP_TAIL@.len() - "</x:xmpmeta>\n<?xpacket end=\"w\"?>"@.len())
        =~= "</x:xmpmeta>\n<?xpacket end=\"w\"?>"@);
    reveal_strlit("");
    let t1 = XMP_HEAD@ + "5"@ + XMP_BEFORE_TOOL@ + CREATOR_TOOL@ + "\""@;
    let t0 = XMP_HEAD@ + "0"@ + XMP_BEFORE_TOOL@ + CREATOR_TOOL@ + "\""@;
    assert(t1 + ""@ =~= t1);
    assert(t0 + ""@ =~= t0);
    assert(xmp_content(ExportVerdict::Keeper) =~= XMP_HEAD@ + "5"@ + XMP_BEFORE_TOOL@ + CREATOR_TOOL@ + "\""@
        + XMP_BEFORE_DESCRIPTION_TOOL@ + CREATOR_TOOL@ + XMP_TAIL@);
    assert(xmp_content(ExportVerdict::Unrated) =~= XMP_HEAD@ + "0"@ + XMP_BEFORE_TOOL@ + CREATOR_TOOL@ + "\""@
        + XMP_BEFORE_DESCRIPTION_TOOL@ + CREATOR_TOOL@ + XMP_TAIL@);
}

/// The sidecar path of a RAW file: the same path with extension `xmp`.
pub open spec fn xmp_path(raw_path: Seq<char>) -> Seq<char> {
    with_extension(raw_path, "xmp"@)
}

/// The sidecar of a RAW file that has a file name lies in the same
/// directory, has the same file stem and the extension `xmp`, and is its
/// own sidecar path.
pub proof fn law_sidecar_beside_raw_file(raw_path: Seq<char>)
    requires
        file_name_span(raw_path, raw_path.len() as int) is Some,
    ensures
        path_extension(xmp_path(raw_path)) == Some("xmp"@),
        directory_prefix(xmp_path(raw_path)) == directory_prefix(raw_path),
        file_stem_text(xmp_path(raw_path)) == file_stem_text(raw_path),
        xmp_path(xmp_path(raw_path)) == xmp_path(raw_path),
{
    reveal_strlit("xmp");
    law_extension_replaced(raw_path, "xmp"@);
}

/// Path of the XMP sidecar of a RAW file, e.g. `photos/DSC_0571.NEF` gives
/// `photos/DSC_0571.xmp`.
pub fn get_xmp_path(raw_path: &str) -> (r: String)
    ensures
        r@ == xmp_path(raw_path@),
{
    replace_extension(raw_path, "xmp")
}

/// XMP sidecar content for a verdict (see `xmp_content`).
pub fn generate_xmp_content(verdict: ExportVerdict) -> (r: String)
    ensures
        r@ == xmp_content(verdict),
{
    let mut out = String::from_str(XMP_HEAD);
    match verdict {
        ExportVerdict::Keeper => out.append("5"),
        ExportVerdict::Reject => out.append("-1"),
        ExportVerdict::Unrated => out.append("0"),
    }
    out.append(XMP_BEFORE_TOOL);
    out.append(CREATOR_TOOL);
    out.append("\"");
    match verdict {
        ExportVerdict::Reject => out.append(XMP_REJECT_LABEL),
        _ => out.append(""),
    }
    out.append(XMP_BEFORE_DESCRIPTION_TOOL);
    out.append(CREATOR_TOOL);
    out.append(XMP_TAIL);
    out
}

/// What exporting one entry takes: nothing for an unrated image, else the
/// sidecar to write next to its RAW file.
pub fn export_action(entry: &ExportEntry) -> (r: Option<SidecarWrite>)
    ensures
        entry.verdict == ExportVerdict::Unrated <==> r is None,
        r matches Some(w) ==> w.path@ == xmp_path(entry.raw_file_path@) && w.content@ == xmp_content(
            entry.verdict,
        ),
{
    match entry.verdict {
        ExportVerdict::Unrated => None,
        _ => Some(
            SidecarWrite {
                path: get_xmp_path(entry.raw_file_path.as_str()),
                content: generate_xmp_content(entry.verdict),
            },
        ),
    }
}

impl ExportResult {
    /// An export that has done nothing yet.
    pub fn new() -> (r: Self)
        ensures
            r.files_written == 0,
            r.files_skipped == 0,
            r.errors@.len() == 0,
    {
        ExportResult { files_written: 0, files_skipped: 0, errors: Vec::new() }
    }

    /// Counts an image that needs no sidecar.
    pub fn record_skip(&mut self)
        requires
            old(self).files_skipped < usize::MAX,
        ensures
            final(self).files_skipped == old(self).files_skipped + 1,
            final(self).files_written == old(self).files_written,
            final(self).errors@ == old(self).errors@,
    {
        self.files_skipped = self.files_skipped + 1;
    }

    /// Records how writing the sidecar at `path` went: a success is
    /// counted, a failure kept with its reason.
    pub fn record_write(&mut self, path: String, outcome: Result<(), String>)
        requires
            old(self).files_written < usize::MAX,
        ensures
            final(self).files_skipped == old(self).files_skipped,
            match outcome {
                Ok(()) => final(self).files_written == old(self).files_written + 1
                    && final(self).errors@ == old(self).errors@,
                Err(e) => final(self).files_written == old(self).files_written
                    && final(self).errors@ == old(self).errors@.push((path, e)),
            },
    {
        match outcome {
            Ok(()) => {
                self.files_written = self.files_written + 1;
            },
            Err(e) => {
                self.errors.push((path, e));
            },
        }
    }
}

/// The entries that get a sidecar (keepers and rejects), in order.
pub open spec fn sidecar_entries(entries: Seq<ExportEntry>) -> Seq<ExportEntry>
    decreases entries.len(),
{
    if entries.len() == 0 {
        seq![]
    } else {
        let rest = sidecar_entries(entries.drop_last());
        if entries.last().verdict == ExportVerdict::Unrated {
            rest
        } else {
            rest.push(entries.last())
        }
    }
}

/// How many entries are unrated.
pub open spec fn unrated_entries(entries: Seq<ExportEntry>) -> nat
    decreases entries.len(),
{
    if entries.len() == 0 {
        0
    } else {
        unrated_entries(entries.drop_last()) + if entries.last().verdict == ExportVerdict::Unrated {
            1nat
        } else {
            0nat
        }
    }
}

/// How many writes succeeded.
pub open spec fn written_count(outcomes: Seq<Result<(), String>>) -> nat
    decreases outcomes.len(),
{
    if outcomes.len() == 0 {
        0
    } else {
        written_count(outcomes.drop_last()) + if outcomes.last() is Ok {
            1nat
        } else {
            0nat
        }
    }
}

/// The failed writes, in order, each as the sidecar path of its entry and
/// the reason: `writes[i]` is the entry whose write had outcome
/// `outcomes[i]`.
pub open spec fn failed_writes(writes: Seq<ExportEntry>, outcomes: Seq<Result<(), String>>) -> Seq<
    (Seq<char>, Seq<char>),
>
    decreases outcomes.len(),
{
    if outcomes.len() == 0 || writes.len() == 0 {
        seq![]
    } else {
        let rest = failed_writes(writes.drop_last(), outcomes.drop_last());
        match outcomes.last() {
            Ok(_) => rest,
            Err(e) => rest.push((xmp_path(writes.last().raw_file_path@), e@)),
        }
    }
}

/// The errors of an export as texts.
pub open spec fn error_views(errors: Seq<(String, String)>) -> Seq<(Seq<char>, Seq<char>)> {
    errors.map_values(|e: (String, String)| (e.0@, e.1@))
}

proof fn lemma_entry_counts(entries: Seq<ExportEntry>)
    ensures
        unrated_entries(entries) + sidecar_entries(entries).len() == entries.len(),
    decreases entries.len(),
{
    if entries.len() > 0 {
        lemma_entry_counts(entries.drop_last());
    }
}

proof fn lemma_sidecar_prefix(entries: Seq<ExportEntry>, k: int)
    requires
        0 <= k <= entries.len(),
    ensures
        sidecar_entries(entries.take(k)).len() <= sidecar_entries(entries).len(),
    decreases entries.len(),
{
    if k < entries.len() {
        let d = entries.drop_last();
        assert(entries.take(k) =~= d.take(k));
        lemma_sidecar_prefix(d, k);
    } else {
        assert(entries.take(k) =~= entries);
    }
}

proof fn lemma_outcome_counts(writes: Seq<ExportEntry>, outcomes: Seq<Result<(), String>>)
    requires
        writes.len() == outcomes.len(),
    ensures
        written_count(outcomes) + failed_writes(writes, outcomes).len() == outcomes.len(),
    decreases outcomes.len(),
{
    if outcomes.len() > 0 {
        lemma_outcome_counts(writes.drop_last(), outcomes.drop_last());
    }
}

/// The tally of an export, given how each sidecar write went: `outcomes`
/// holds, in order, the outcome of writing the sidecar of each keeper and
/// reject entry. Every unrated entry counts as skipped, every successful
/// write as written, and every failed one is kept, in order, with its
/// sidecar path and reason; written and failed together are the keepers
/// and rejects.
pub fn export_summary(entries: &[ExportEntry], outcomes: &[Result<(), String>]) -> (r: ExportResult)
    requires
        outcomes@.len() == sidecar_entries(entries@).len(),
    ensures
        r.files_skipped == unrated_entries(entries@),
        r.files_written == written_count(outcomes@),
        error_views(r.errors@) == failed_writes(sidecar_entries(entries@), outcomes@),
        r.files_written + r.errors@.len() == sidecar_entries(entries@).len(),
        r.files_skipped + r.files_written + r.errors@.len() == entries@.len(),
{
    let mut result = ExportResult::new();
    let mut i: usize = 0;
    let mut j: usize = 0;
    assert(entries@.take(0) =~= Seq::<ExportEntry>::empty());
    assert(outcomes@.take(0) =~= Seq::<Result<(), String>>::empty());
    assert(error_views(result.errors@) =~= Seq::<(Seq<char>, Seq<char>)>::empty());
    while i < entries.len()
        invariant
            i <= entries@.len(),
            outcomes@.len() == sidecar_entries(entries@).len(),
            j == sidecar_entries(entries@.take(i as int)).len(),
            j <= outcomes@.len(),
            result.files_skipped == unrated_entries(entries@.take(i as int)),
            result.files_written == written_count(outcomes@.take(j as int)),
            error_views(result.errors@) == failed_writes(
                sidecar_entries(entries@.take(i as int)),
                outcomes@.take(j as int),
            ),
        decreases entries@.len() - i,
    {
        let ghost prefix = entries@.take(i as int);
        let ghost next = entries@.take(i + 1);
        assert(next.drop_last() =~= prefix);
        assert(next.last() == entries@[i as int]);
        proof {
            lemma_entry_counts(prefix);
            lemma_outcome_counts(sidecar_entries(prefix), outcomes@.take(j as int));
        }
        let entry = &entries[i];
        match entry.verdict {
            ExportVerdict::Unrated => {
                result.record_skip();
            },
            _ => {
                proof {
                    lemma_sidecar_prefix(entries@, i + 1);
                }
                let ghost before = result.errors@;
                let path = get_xmp_path(entry.raw_file_path.as_str());
                let ghost o = outcomes@.take(j + 1);
                let ghost w = sidecar_entries(next);
                assert(o.drop_last() =~= outcomes@.take(j as int));
                assert(o.last() == outcomes@[j as int]);
                assert(w == sidecar_entries(prefix).push(entries@[i as int]));
                assert(w.drop_last() =~= sidecar_entries(prefix));
                assert(failed_writes(w, o) == match o.last() {
                    Ok(_) => failed_writes(sidecar_entries(prefix), outcomes@.take(j as int)),
                    Err(e) => failed_writes(sidecar_entries(prefix), outcomes@.take(j as int)).push(
                        (xmp_path(entries@[i as int].raw_file_path@), e@),
                    ),
                });
                match &outcomes[j] {
                    Ok(()) => {
                        result.record_write(path, Ok(()));
                    },
                    Err(e) => {
                        result.record_write(path, Err(e.clone()));
                        assert(error_views(result.errors@) =~= error_views(before).push(
                            (xmp_path(entry.raw_file_path@), e@),
                        ));
                    },
                }
                j = j + 1;
            },
        }
        i = i + 1;
    }
    assert(entries@.take(i as int) =~= entries@);
    assert(outcomes@.take(j as int) =~= outcomes@);
    proof {
        lemma_entry_counts(entries@);
        lemma_outcome_counts(sidecar_entries(entries@), outcomes@);
    }
    result
}

} // verus!
