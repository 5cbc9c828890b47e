use vstd::prelude::*;

use crate::contract::{PackedFile, PackedSegment, RetrievalPack};
use crate::packing::{files_view, PackedFileView, PackedSegmentView};
use crate::text::{chars_of, decimal, lemma_flatten_push, push_chars, push_decimal, push_str};

verus! {

broadcast use vstd::string::group_string_axioms;

/// Number of segments in a sequence of packed files.
pub open spec fn segment_total(files: Seq<PackedFileView>) -> nat
    decreases files.len(),
{
    if files.len() == 0 {
        0
    } else {
        segment_total(files.drop_last()) + files.last().segments.len()
    }
}

/// The number of segments in a pack.
pub fn count_segments(pack: &RetrievalPack) -> (n: u32)
    requires
        segment_total(files_view(pack.files@)) <= u32::MAX,
    ensures
        n == segment_total(files_view(pack.files@)),
{
    let ghost fv = files_view(pack.files@);
    let mut n: u32 = 0;
    let mut i: usize = 0;
    while i < pack.files.len()
        invariant
            0 <= i <= pack.files.len(),
            fv == files_view(pack.files@),
            segment_total(fv) <= u32::MAX,
            n == segment_total(fv.take(i as int)),
        decreases pack.files.len() - i,
    {
        proof {
            assert(fv.take(i + 1).drop_last() =~= fv.take(i as int));
            assert(fv[i as int] == pack.files@[i as int]@);
            lemma_segment_total_prefix(fv, i + 1);
        }
        n = n + pack.files[i].segments.len() as u32;
        i = i + 1;
    }
    assert(fv.take(i as int) =~= fv);
    n
}

proof fn lemma_segment_total_prefix(files: Seq<PackedFileView>, k: int)
    requires
        0 <= k <= files.len(),
    ensures
        segment_total(files.take(k)) <= segment_total(files),
    decreases files.len(),
{
    if k < files.len() {
        assert(files.drop_last().take(k) =~= files.take(k));
        lemma_segment_total_prefix(files.drop_last(), k);
    } else {
        assert(files.take(k) =~= files);
    }
}

/// The opening line of a rendered pack.
pub open spec fn header_md(n: nat, file_count: nat) -> Seq<char> {
    "Found "@ + decimal(n) + " relevant code block"@ + (if n == 1 {
        ""@
    } else {
        "s"@
    }) + " | Files: "@ + decimal(file_count) + " | Total segments: "@ + decimal(n) + "\n"@
}

/// A warning as rendered.
pub open spec fn warning_md(w: Seq<char>) -> Seq<char> {
    "\nWarning: "@ + w + "\n"@
}

/// A segment as rendered: a fenced block labelled `language:start-end`, its
/// text ending with a newline.
pub open spec fn segment_md(language: Seq<char>, s: PackedSegmentView) -> Seq<char> {
    "\n```"@ + language + ":"@ + decimal(s.start_line as nat) + "-"@ + decimal(s.end_line as nat)
        + "\n"@ + s.text + (if s.text.len() > 0 && s.text.last() == '\n' {
        ""@
    } else {
        "\n"@
    }) + "```\n"@
}

/// A file as rendered: a heading with its path and language, then its segments.
pub open spec fn file_md(f: PackedFileView) -> Seq<char> {
    "\n## "@ + f.path + " ("@ + f.language + ")\n"@ + f.segments.map_values(
        |s: PackedSegmentView| segment_md(f.language, s),
    ).flatten()
}

/// A pack rendered as Markdown, with the retrieval's warnings.
pub open spec fn markdown_of(files: Seq<PackedFileView>, warnings: Seq<Seq<char>>) -> Seq<char> {
    let n = segment_total(files);
    header_md(n, files.len()) + warnings.map_values(|w: Seq<char>| warning_md(w)).flatten()
        + files.map_values(|f: PackedFileView| file_md(f)).flatten()
}

/// The texts of a list of strings.
pub open spec fn strings_view(v: Seq<String>) -> Seq<Seq<char>> {
    v.map_values(|s: String| s@)
}

fn render_segment(out: &mut String, language: &str, s: &PackedSegment)
    ensures
        final(out)@ == old(out)@ + segment_md(language@, s@),
{
    push_str(out, "\n```");
    push_str(out, language);
    push_str(out, ":");
    push_decimal(out, s.start_line as u64);
    push_str(out, "-");
    push_decimal(out, s.end_line as u64);
    push_str(out, "\n");
    let text = chars_of(s.text.as_str());
    push_chars(out, text.as_slice());
    if !(text.len() > 0 && text[text.len() - 1] == '\n') {
        push_str(out, "\n");
    } else {
        push_str(out, "");
    }
    push_str(out, "```\n");
    assert(out@ =~= old(out)@ + segment_md(language@, s@));
}

fn render_file(out: &mut String, f: &PackedFile)
    ensures
        final(out)@ == old(out)@ + file_md(f@),
{
    push_str(out, "\n## ");
    push_str(out, f.path.as_str());
    push_str(out, " (");
    push_str(out, f.language.as_str());
    push_str(out, ")\n");
    let ghost head = out@;
    let ghost parts = f@.segments.map_values(|s: PackedSegmentView| segment_md(f.language@, s));
    let mut i: usize = 0;
    assert(parts.take(0).flatten() =~= Seq::<char>::empty());
    assert(head =~= head + parts.take(0).flatten());
    while i < f.segments.len()
        invariant
            0 <= i <= f.segments.len(),
            parts == f@.segments.map_values(|s: PackedSegmentView| segment_md(f.language@, s)),
            out@ == head + parts.take(i as int).flatten(),
        decreases f.segments.len() - i,
    {
        render_segment(out, f.language.as_str(), &f.segments[i]);
        proof {
            assert(parts.take(i + 1) =~= parts.take(i as int).push(parts[i as int]));
            lemma_flatten_push(parts.take(i as int), parts[i as int]);
            assert(f@.segments[i as int] == f.segments@[i as int]@);
        }
        i = i + 1;
    }
    assert(parts.take(i as int) =~= parts);
    assert(out@ =~= old(out)@ + file_md(f@));
}

/// Renders a pack as Markdown: a summary line (`Found N relevant code
/// block(s) | Files: F | Total segments: N`), each warning, then each file's
/// heading (`## path (language)`) and its segments as fenced blocks labelled
/// `language:start-end` (see [`markdown_of`]).
pub fn render_markdown(pack: &RetrievalPack, warnings: &[String]) -> (out: String)
    requires
        segment_total(files_view(pack.files@)) <= u32::MAX,
    ensures
        out@ == markdown_of(files_view(pack.files@), strings_view(warnings@)),
{
    let ghost fv = files_view(pack.files@);
    let ghost wv = strings_view(warnings@);
    let mut out = String::new();
    let n = count_segments(pack);
    push_str(&mut out, "Found ");
    push_decimal(&mut out, n as u64);
    push_str(&mut out, " relevant code block");
    if n == 1 {
        push_str(&mut out, "");
    } else {
        push_str(&mut out, "s");
    }
    push_str(&mut out, " | Files: ");
    push_decimal(&mut out, pack.files.len() as u64);
    push_str(&mut out, " | Total segments: ");
    push_decimal(&mut out, n as u64);
    push_str(&mut out, "\n");
    assert(out@ =~= header_md(n as nat, fv.len()));
    let ghost head = out@;
    let ghost wparts = wv.map_values(|w: Seq<char>| warning_md(w));
    let mut i: usize = 0;
    assert(wparts.take(0).flatten() =~= Seq::<char>::empty());
    assert(head =~= head + wparts.take(0).flatten());
    while i < warnings.len()
        invariant
            0 <= i <= warnings.len(),
            wv == strings_view(warnings@),
            wparts == wv.map_values(|w: Seq<char>| warning_md(w)),
            out@ == head + wparts.take(i as int).flatten(),
        decreases warnings.len() - i,
    {
        push_str(&mut out, "\nWarning: ");
        push_str(&mut out, warnings[i].as_str());
        push_str(&mut out, "\n");
        proof {
            assert(wparts.take(i + 1) =~= wparts.take(i as int).push(wparts[i as int]));
            lemma_flatten_push(wparts.take(i as int), wparts[i as int]);
            assert(out@ =~= head + wparts.take(i + 1).flatten());
        }
        i = i + 1;
    }
    assert(wparts.take(i as int) =~= wparts);
    let ghost mid = out@;
    let ghost fparts = fv.map_values(|f: PackedFileView| file_md(f));
    let mut j: usize = 0;
    assert(fparts.take(0).flatten() =~= Seq::<char>::empty());
    assert(mid =~= mid + fparts.take(0).flatten());
    while j < pack.files.len()
        invariant
            0 <= j <= pack.files.len(),
            fv == files_view(pack.files@),
            fparts == fv.map_values(|f: PackedFileView| file_md(f)),
            out@ == mid + fparts.take(j as int).flatten(),
        decreases pack.files.len() - j,
    {
        render_file(&mut out, &pack.files[j]);
        proof {
            assert(fv[j as int] == pack.files@[j as int]@);
            assert(fparts.take(j + 1) =~= fparts.take(j as int).push(fparts[j as int]));
            lemma_flatten_push(fparts.take(j as int), fparts[j as int]);
            assert(out@ =~= mid + fparts.take(j + 1).flatten());
        }
        j = j + 1;
    }
    assert(fparts.take(j as int) =~= fparts);
    assert(out@ =~= markdown_of(fv, wv));
    out
}

} // verus!
