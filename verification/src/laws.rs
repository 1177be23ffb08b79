//! The library's laws: properties of the scanner, the tokenizer and the
//! header chain, each stated over the specification functions that the
//! executable functions are verified against.

use vstd::prelude::*;

use crate::classify::classify;
use crate::elements::{as_markdown_spec, repeat_seq, ParseDiagnostic};
use crate::model::ElemModel;
use crate::scan::{flush_model, scan, scan_from, step_line, ModeModel, ScanModel};
use crate::text::{
    find_from, is_space, leading_blank_run_s, leading_run_s, lemma_find_from,
    lemma_leading_run, lemma_run_prefix, lemma_trim_end_at, lemma_trim_end_keeps_head,
    lemma_trim_start_at, lemma_trimmed_ends, trim_s, trim_start_s,
};
use crate::inline::{
    lemma_tok_scan_advances, tok_init, tok_scan, tok_yield, tokenize, tokenize_from,
    TokState,
};
use crate::model::TextElemModel;
use crate::utilities::{chain_after, chain_trim, with_chain};

verus! {

/// Parsing is deterministic: two parses of the same document, with the same
/// options, deliver the same element sequence and the same diagnostics.
/// Both are pinned to [`scan`] of the document's characters, which is a
/// function of the input alone.
pub proof fn lemma_parse_deterministic(
    s: Seq<char>,
    include_new_lines: bool,
    first: ScanModel,
    second: ScanModel,
)
    requires
        first == scan(s, include_new_lines),
        second == scan(s, include_new_lines),
    ensures
        first.elements == second.elements,
        first.diags == second.diags,
{
}

/// One scanner step in the trace of a scan: the line span it consumed and
/// what it emitted.
pub struct TraceEntry {
    pub start: int,
    pub end: int,
    pub emitted: Seq<ElemModel>,
    pub diags: Seq<ParseDiagnostic>,
}

/// The trace of a scan: one entry per line, carrying what the step over
/// that line emitted; the final entry also carries what flushing the still
/// open mode emitted.
pub open spec fn scan_trace(
    s: Seq<char>,
    include_new_lines: bool,
    pos: int,
    bstart: int,
    mode: ModeModel,
) -> Seq<TraceEntry>
    decreases s.len() - pos,
    via scan_trace_decreases
{
    let le = find_from(s, pos, '\n');
    let st = step_line(s, include_new_lines, pos, le, bstart, mode);
    if le >= s.len() {
        let fl = flush_model(s, st.bstart2, st.mode2);
        seq![
            TraceEntry {
                start: pos,
                end: s.len() as int,
                emitted: st.emitted + fl.elements,
                diags: st.diags + fl.diags,
            },
        ]
    } else {
        seq![TraceEntry { start: pos, end: le + 1, emitted: st.emitted, diags: st.diags }]
            + scan_trace(s, include_new_lines, le + 1, st.bstart2, st.mode2)
    }
}

#[via_fn]
proof fn scan_trace_decreases(
    s: Seq<char>,
    include_new_lines: bool,
    pos: int,
    bstart: int,
    mode: ModeModel,
) {
    if 0 <= pos <= s.len() {
        lemma_find_from(s, pos, '\n');
    }
}

/// The concatenated elements of a trace.
pub open spec fn trace_elems(tr: Seq<TraceEntry>) -> Seq<ElemModel>
    decreases tr.len(),
{
    if tr.len() == 0 {
        Seq::empty()
    } else {
        tr[0].emitted + trace_elems(tr.drop_first())
    }
}

/// The concatenated diagnostics of a trace.
pub open spec fn trace_diags(tr: Seq<TraceEntry>) -> Seq<ParseDiagnostic>
    decreases tr.len(),
{
    if tr.len() == 0 {
        Seq::empty()
    } else {
        tr[0].diags + trace_diags(tr.drop_first())
    }
}

/// The trace's spans tile the document: the first starts at `pos`, each
/// entry ends where the next begins, the last ends at the end of the
/// document, and each entry consumes exactly one line (its span reaches one
/// past the line's newline, or the end of the document for the final line).
pub proof fn lemma_scan_trace_covers(
    s: Seq<char>,
    include_new_lines: bool,
    pos: int,
    bstart: int,
    mode: ModeModel,
)
    requires
        0 <= pos <= s.len(),
    ensures
        ({
            let tr = scan_trace(s, include_new_lines, pos, bstart, mode);
            &&& tr.len() > 0
            &&& tr[0].start == pos
            &&& tr[tr.len() - 1].end == s.len()
            &&& forall|i: int| 0 <= i < tr.len() - 1 ==> #[trigger] tr[i].end == tr[i + 1].start
            &&& forall|i: int|
                0 <= i < tr.len() - 1 ==> #[trigger] tr[i].end == find_from(s, tr[i].start, '\n')
                    + 1
            &&& find_from(s, tr[tr.len() - 1].start, '\n') == s.len()
            &&& forall|i: int| 0 <= i < tr.len() ==> #[trigger] tr[i].start <= tr[i].end
        }),
    decreases s.len() - pos,
{
    lemma_find_from(s, pos, '\n');
    let le = find_from(s, pos, '\n');
    let st = step_line(s, include_new_lines, pos, le, bstart, mode);
    if le >= s.len() {
    } else {
        lemma_scan_trace_covers(s, include_new_lines, le + 1, st.bstart2, st.mode2);
        let rest = scan_trace(s, include_new_lines, le + 1, st.bstart2, st.mode2);
        let tr = scan_trace(s, include_new_lines, pos, bstart, mode);
        assert(tr[0].end == rest[0].start);
        assert forall|i: int| 0 <= i < tr.len() - 1 implies #[trigger] tr[i].end == tr[i
            + 1].start by {
            if i > 0 {
                assert(tr[i] == rest[i - 1]);
                assert(tr[i + 1] == rest[i]);
            }
        }
        assert forall|i: int|
            0 <= i < tr.len() - 1 implies #[trigger] tr[i].end == find_from(s, tr[i].start,
            '\n') + 1 by {
            if i > 0 {
                assert(tr[i] == rest[i - 1]);
            }
        }
        assert forall|i: int| 0 <= i < tr.len() implies #[trigger] tr[i].start <= tr[i].end by {
            if i > 0 {
                assert(tr[i] == rest[i - 1]);
            }
        }
    }
}

/// The trace carries exactly what the scan emits: its entries' elements and
/// diagnostics concatenate to the scan's output.
pub proof fn lemma_scan_trace_emissions(
    s: Seq<char>,
    include_new_lines: bool,
    pos: int,
    bstart: int,
    mode: ModeModel,
)
    requires
        0 <= pos <= s.len(),
    ensures
        trace_elems(scan_trace(s, include_new_lines, pos, bstart, mode)) == scan_from(
            s,
            include_new_lines,
            pos,
            bstart,
            mode,
        ).elements,
        trace_diags(scan_trace(s, include_new_lines, pos, bstart, mode)) == scan_from(
            s,
            include_new_lines,
            pos,
            bstart,
            mode,
        ).diags,
    decreases s.len() - pos,
{
    lemma_find_from(s, pos, '\n');
    let le = find_from(s, pos, '\n');
    let st = step_line(s, include_new_lines, pos, le, bstart, mode);
    let tr = scan_trace(s, include_new_lines, pos, bstart, mode);
    if le >= s.len() {
        let fl = flush_model(s, st.bstart2, st.mode2);
        assert(tr.len() == 1);
        assert(tr.drop_first() =~= Seq::<TraceEntry>::empty());
        assert(trace_elems(tr.drop_first()) == Seq::<ElemModel>::empty());
        assert(trace_diags(tr.drop_first()) == Seq::<ParseDiagnostic>::empty());
        assert(tr[0].emitted == st.emitted + fl.elements);
        assert(tr[0].diags == st.diags + fl.diags);
        assert(trace_elems(tr) == tr[0].emitted + trace_elems(tr.drop_first()));
        assert(trace_diags(tr) == tr[0].diags + trace_diags(tr.drop_first()));
        assert(trace_elems(tr) =~= scan_from(s, include_new_lines, pos, bstart, mode)
            .elements);
        assert(trace_diags(tr) =~= scan_from(s, include_new_lines, pos, bstart, mode).diags);
    } else {
        lemma_scan_trace_emissions(s, include_new_lines, le + 1, st.bstart2, st.mode2);
        let rest = scan_trace(s, include_new_lines, le + 1, st.bstart2, st.mode2);
        assert(tr.drop_first() =~= rest);
        assert(tr[0].emitted == st.emitted);
        assert(tr[0].diags == st.diags);
        assert(trace_elems(tr) == tr[0].emitted + trace_elems(rest));
        assert(trace_diags(tr) == tr[0].diags + trace_diags(rest));
        assert(trace_elems(tr) =~= scan_from(s, include_new_lines, pos, bstart, mode)
            .elements);
        assert(trace_diags(tr) =~= scan_from(s, include_new_lines, pos, bstart, mode).diags);
    }
}

/// Coverage: the scan of a document consumes each of its lines exactly
/// once.  The scanner's trace has one entry per line; the entries' spans
/// are consecutive and tile `[0, len]`; and everything the parse delivers
/// — elements and diagnostics alike — is the concatenation of what those
/// line steps emitted.  A line therefore belongs to exactly one step,
/// whether that step emitted an element, suppressed a blank line, collected
/// the line into an open block or reported a diagnostic.
pub proof fn lemma_scan_coverage(s: Seq<char>, include_new_lines: bool)
    ensures
        ({
            let tr = scan_trace(s, include_new_lines, 0, 0, ModeModel::Text);
            &&& tr.len() > 0
            &&& tr[0].start == 0
            &&& tr[tr.len() - 1].end == s.len()
            &&& forall|i: int| 0 <= i < tr.len() - 1 ==> #[trigger] tr[i].end == tr[i + 1].start
            &&& forall|i: int|
                0 <= i < tr.len() - 1 ==> #[trigger] tr[i].end == find_from(s, tr[i].start, '\n')
                    + 1
            &&& find_from(s, tr[tr.len() - 1].start, '\n') == s.len()
            &&& trace_elems(tr) == scan(s, include_new_lines).elements
            &&& trace_diags(tr) == scan(s, include_new_lines).diags
        }),
{
    lemma_scan_trace_covers(s, include_new_lines, 0, 0, ModeModel::Text);
    lemma_scan_trace_emissions(s, include_new_lines, 0, 0, ModeModel::Text);
}

/// Every heading in `es` has a representable level of at least one.
pub open spec fn heading_levels_wf(es: Seq<ElemModel>) -> bool {
    forall|j: int|
        0 <= j < es.len() ==> ((#[trigger] es[j]) matches ElemModel::Heading { level, .. }
            ==> 1 <= level)
}

/// Everything one scanner step emits has well-formed heading levels: only
/// the classifier makes headings, and it counts a `#` run of at least one
/// and at most 255.
proof fn lemma_step_heading_levels(
    s: Seq<char>,
    include_new_lines: bool,
    pos: int,
    le: int,
    bstart: int,
    mode: ModeModel,
)
    ensures
        heading_levels_wf(step_line(s, include_new_lines, pos, le, bstart, mode).emitted),
{
    let st = step_line(s, include_new_lines, pos, le, bstart, mode);
    let line = s.subrange(pos, le);
    let t = crate::text::trim_s(line);
    if t.len() > 0 && t[0] == '#' {
        crate::text::lemma_leading_run(t, '#');
        assert(crate::text::leading_run_s(t, '#') >= 1);
    }
}

/// The whole scan emits only headings with well-formed levels.
pub proof fn lemma_scan_heading_levels(
    s: Seq<char>,
    include_new_lines: bool,
    pos: int,
    bstart: int,
    mode: ModeModel,
)
    requires
        0 <= pos <= s.len(),
    ensures
        heading_levels_wf(scan_from(s, include_new_lines, pos, bstart, mode).elements),
    decreases s.len() - pos,
{
    lemma_find_from(s, pos, '\n');
    let le = find_from(s, pos, '\n');
    let st = step_line(s, include_new_lines, pos, le, bstart, mode);
    lemma_step_heading_levels(s, include_new_lines, pos, le, bstart, mode);
    if le >= s.len() {
        let fl = flush_model(s, st.bstart2, st.mode2);
        assert forall|j: int|
            0 <= j < (st.emitted + fl.elements).len() implies ((#[trigger] (st.emitted
            + fl.elements)[j]) matches ElemModel::Heading { level, .. } ==> 1 <= level) by {
            if j < st.emitted.len() {
                assert((st.emitted + fl.elements)[j] == st.emitted[j]);
            } else {
                assert((st.emitted + fl.elements)[j] == fl.elements[j - st.emitted.len()]);
            }
        }
    } else {
        lemma_scan_heading_levels(s, include_new_lines, le + 1, st.bstart2, st.mode2);
        let rest = scan_from(s, include_new_lines, le + 1, st.bstart2, st.mode2);
        assert forall|j: int|
            0 <= j < (st.emitted + rest.elements).len() implies ((#[trigger] (st.emitted
            + rest.elements)[j]) matches ElemModel::Heading { level, .. } ==> 1 <= level) by {
            if j < st.emitted.len() {
                assert((st.emitted + rest.elements)[j] == st.emitted[j]);
            } else {
                assert((st.emitted + rest.elements)[j] == rest.elements[j
                    - st.emitted.len()]);
            }
        }
    }
}

/// Header-chain length: every heading is delivered together with a chain
/// of exactly `level - 1` ancestors — the chain is cut or padded to that
/// length before the heading's own text is pushed.
pub proof fn lemma_header_chain_length(es: Seq<ElemModel>)
    requires
        heading_levels_wf(es),
    ensures
        forall|j: int|
            0 <= j < with_chain(es).len() ==> ((#[trigger] with_chain(es)[j]).1 matches
                ElemModel::Heading { level, .. } ==> with_chain(es)[j].0.len() == level
                - 1),
    decreases es.len(),
{
    if es.len() == 0 {
    } else {
        let prefix = es.drop_last();
        assert forall|j: int| 0 <= j < prefix.len() implies ((#[trigger] prefix[j]) matches
            ElemModel::Heading { level, .. } ==> 1 <= level) by {
            assert(es[j] == prefix[j]);
        }
        lemma_header_chain_length(prefix);
        let pairs = with_chain(es);
        assert forall|j: int|
            0 <= j < pairs.len() implies ((#[trigger] pairs[j]).1 matches
            ElemModel::Heading { level, .. } ==> pairs[j].0.len() == level - 1) by {
            if j < pairs.len() - 1 {
                assert(pairs[j] == with_chain(prefix)[j]);
            } else {
                match es.last() {
                    ElemModel::Heading { level, .. } => {
                        assert(es[es.len() - 1] matches ElemModel::Heading { level: l2, .. }
                            ==> 1 <= l2);
                        assert(1 <= level);
                        assert(chain_trim(chain_after(prefix), level - 1).len() == level
                            - 1);
                    },
                    _ => {},
                }
            }
        }
    }
}

/// The text of the heading at level `l` that is still open after `es`:
/// the most recent heading of exactly that level, unless a later heading
/// of the same or a shallower level closed it; `None` when no such heading
/// is open.
pub open spec fn open_heading(es: Seq<ElemModel>, l: int) -> Option<Seq<char>>
    decreases es.len(),
{
    if es.len() == 0 {
        None
    } else {
        match es.last() {
            ElemModel::Heading { level, text } => if l == level {
                Some(text)
            } else if l > level {
                None
            } else {
                open_heading(es.drop_last(), l)
            },
            _ => open_heading(es.drop_last(), l),
        }
    }
}

/// Header-chain content: position `l - 1` of the chain holds the text of
/// the still-open heading at level `l`, and an empty text where that level
/// was skipped.
pub proof fn lemma_header_chain_content(es: Seq<ElemModel>, l: int)
    requires
        heading_levels_wf(es),
        1 <= l,
    ensures
        ({
            let chain = chain_after(es);
            &&& open_heading(es, l) matches Some(t) ==> l - 1 < chain.len() && chain[l - 1]
                == t
            &&& (l - 1 < chain.len() && open_heading(es, l) is None) ==> chain[l - 1]
                == Seq::<char>::empty()
        }),
    decreases es.len(),
{
    if es.len() == 0 {
    } else {
        let prefix = es.drop_last();
        assert forall|j: int| 0 <= j < prefix.len() implies ((#[trigger] prefix[j]) matches
            ElemModel::Heading { level, .. } ==> 1 <= level) by {
            assert(es[j] == prefix[j]);
        }
        lemma_header_chain_content(prefix, l);
        match es.last() {
            ElemModel::Heading { level, text } => {
                assert(es[es.len() - 1] matches ElemModel::Heading { level: l2, .. }
                    ==> 1 <= l2);
                assert(1 <= level);
                let prev = chain_after(prefix);
                let chain = chain_after(es);
                assert(chain == chain_trim(prev, level - 1).push(text));
                if l == level {
                    assert(chain[l - 1] == text);
                } else if l < level {
                    if l - 1 < prev.len() && prev.len() >= level - 1 {
                        assert(chain[l - 1] == prev.subrange(0, level - 1)[l - 1]);
                    }
                }
            },
            _ => {},
        }
    }
}


/// A repeat of a one-character piece holds that character at every
/// position.
proof fn lemma_repeat_single(c: char, p: Seq<char>, n: int)
    requires
        p.len() == 1,
        p[0] == c,
        n >= 0,
    ensures
        repeat_seq(p, n).len() == n,
        forall|i: int| 0 <= i < n ==> repeat_seq(p, n)[i] == c,
    decreases n,
{
    if n > 0 {
        lemma_repeat_single(c, p, n - 1);
        assert forall|i: int| 0 <= i < n implies repeat_seq(p, n)[i] == c by {
            if i < n - 1 {
                assert(repeat_seq(p, n)[i] == repeat_seq(p, n - 1)[i]);
            } else {
                assert(repeat_seq(p, n)[i] == p[0]);
            }
        }
    }
}

/// Round trip for headings: the rendering of a heading with a trimmed text
/// classifies back to a heading, as long as the heading's own `#` run plus
/// any `#` run that begins its text stays representable.
pub proof fn lemma_heading_round_trip(level: u8, text: Seq<char>)
    requires
        1 <= level,
        trim_s(text) == text,
        level + leading_run_s(text, '#') <= 255,
    ensures
        classify(as_markdown_spec(ElemModel::Heading { level, text })) matches Ok(e)
            && e is Heading,
{
    reveal_strlit("#");
    reveal_strlit(" ");
    let rep = repeat_seq("#"@, level as int);
    lemma_repeat_single('#', "#"@, level as int);
    let line = as_markdown_spec(ElemModel::Heading { level, text });
    assert(line == rep + text + " "@);
    assert(line[0] == '#');
    lemma_trim_start_at(line, 0);
    assert(line.subrange(0, line.len() as int) =~= line);
    let k = level + text.len();
    if text.len() > 0 {
        lemma_trimmed_ends(text);
        assert(line[k - 1] == text.last());
    } else {
        assert(line[k - 1] == '#');
    }
    assert(forall|i: int| k <= i < line.len() ==> is_space(#[trigger] line[i]));
    lemma_trim_end_at(line, k as int);
    let t = line.subrange(0, k as int);
    assert(t =~= rep + text);
    assert(trim_s(line) == rep + text);
    lemma_run_prefix('#', rep, text);
    lemma_leading_run(text, '#');
    assert(leading_run_s(rep + text, '#') == level + leading_run_s(text, '#'));
}

/// Round trip for quotes: the rendering of any quote classifies back to a
/// quote.
pub proof fn lemma_quote_round_trip(text: Seq<char>)
    ensures
        classify(as_markdown_spec(ElemModel::Quote { text })) matches Ok(e) && e is Quote,
{
    reveal_strlit("> ");
    let line = as_markdown_spec(ElemModel::Quote { text });
    assert(line == "> "@ + text);
    assert(line[0] == '>');
    lemma_trim_start_at(line, 0);
    assert(line.subrange(0, line.len() as int) =~= line);
    lemma_trim_end_keeps_head(line);
    let t = trim_s(line);
    assert(t.len() >= 1 && t[0] == '>');
}

/// Round trip for list items: the rendering of a list item with a trimmed
/// text classifies back to a list item.
pub proof fn lemma_list_item_round_trip(level: u8, text: Seq<char>)
    requires
        trim_s(text) == text,
    ensures
        classify(as_markdown_spec(ElemModel::ListItem { level, text })) matches Ok(e)
            && e is ListItem,
{
    reveal_strlit("\t");
    reveal_strlit("- ");
    reveal_strlit("---");
    let rep = repeat_seq("\t"@, level as int);
    lemma_repeat_single('\t', "\t"@, level as int);
    let line = as_markdown_spec(ElemModel::ListItem { level, text });
    assert(line == rep + "- "@ + text);
    assert(forall|i: int| 0 <= i < level ==> is_space(#[trigger] line[i]));
    assert(line[level as int] == '-');
    lemma_trim_start_at(line, level as int);
    let ts = line.subrange(level as int, line.len() as int);
    assert(ts =~= "- "@ + text);
    assert(trim_start_s(line) == "- "@ + text);
    if text.len() > 0 {
        lemma_trimmed_ends(text);
        assert(ts[ts.len() - 1] == text.last());
        lemma_trim_end_at(ts, ts.len() as int);
        assert(ts.subrange(0, ts.len() as int) =~= ts);
        let t = ts;
        assert(trim_s(line) == t);
        assert(t[0] == '-');
        assert(t[1] == ' ');
        assert(t != "---"@);
        let rest = t.subrange(1, t.len() as int);
        assert(rest[0] == ' ');
        assert(rest.drop_first() =~= text);
        assert(!is_space(text[0]));
        assert(leading_blank_run_s(rest) == 1 + leading_blank_run_s(text));
        assert(leading_blank_run_s(text) == 0);
    } else {
        assert(ts =~= "- "@);
        assert(ts[ts.len() - 1] == ' ');
        assert(ts[0] == '-');
        lemma_trim_end_at(ts, 1);
        let t = ts.subrange(0, 1);
        assert(trim_s(line) == t);
        assert(t[0] == '-');
        assert(t.len() == 1);
        assert(t != "---"@);
        let rest = t.subrange(1, t.len() as int);
        assert(rest.len() == 0);
        assert(leading_blank_run_s(rest) == 0);
    }
}

/// Round trip for paragraphs: the rendering of a paragraph whose text is
/// trimmed, non-empty and not itself a heading, quote, rule or list marker
/// classifies back to exactly the same paragraph.
pub proof fn lemma_paragraph_round_trip(text: Seq<char>)
    requires
        trim_s(text) == text,
        text.len() > 0,
        text[0] != '#',
        text[0] != '>',
        text != "---"@,
        text[0] != '-',
    ensures
        classify(as_markdown_spec(ElemModel::Paragraph { text })) == Ok::<
            ElemModel,
            ParseDiagnostic,
        >(ElemModel::Paragraph { text }),
{
}

/// Round trip for the empty element: its rendering is the empty line,
/// which classifies back to the empty element.
pub proof fn lemma_empty_round_trip()
    ensures
        classify(as_markdown_spec(ElemModel::Empty)) == Ok::<ElemModel, ParseDiagnostic>(
            ElemModel::Empty,
        ),
{
    reveal_strlit("---");
    let line = as_markdown_spec(ElemModel::Empty);
    assert(line.len() == 0);
    assert(trim_s(line).len() == 0);
    assert(trim_s(line) != "---"@);
}

/// The start of the final line of `s` at or after `pos`: the position just
/// past the last newline.
pub open spec fn tail_line_start(s: Seq<char>, pos: int) -> int
    decreases s.len() - pos,
    via tail_line_start_decreases
{
    let le = find_from(s, pos, '\n');
    if le >= s.len() {
        pos
    } else {
        tail_line_start(s, le + 1)
    }
}

#[via_fn]
proof fn tail_line_start_decreases(s: Seq<char>, pos: int) {
    if 0 <= pos <= s.len() {
        lemma_find_from(s, pos, '\n');
    }
}

/// The final line starts right after the last newline.
proof fn lemma_tail_line_start(s: Seq<char>, pos: int, m: int)
    requires
        0 <= pos <= m <= s.len(),
        m > 0 ==> s[m - 1] == '\n',
        m == 0 ==> pos == 0,
        forall|i: int| m <= i < s.len() ==> s[i] != '\n',
    ensures
        tail_line_start(s, pos) == m,
    decreases m - pos,
{
    lemma_find_from(s, pos, '\n');
    let le = find_from(s, pos, '\n');
    if pos == m {
        assert(le >= s.len());
    } else {
        assert(pos < m);
        assert(s[m - 1] == '\n');
        assert(le <= m - 1);
        lemma_tail_line_start(s, le + 1, m);
    }
}

/// Scanning in code mode with the document's final line a closing fence
/// emits a code block first, whatever the collected lines hold.
proof fn lemma_code_mode_emits_code_block(
    s: Seq<char>,
    include_new_lines: bool,
    pos: int,
    bstart: int,
    language: Seq<char>,
)
    requires
        0 <= pos <= s.len(),
        trim_s(s.subrange(tail_line_start(s, pos), s.len() as int)) == "```"@,
    ensures
        ({
            let r = scan_from(s, include_new_lines, pos, bstart, ModeModel::Code {
                language,
            });
            &&& r.elements.len() >= 1
            &&& r.elements[0] is CodeBlock
        }),
    decreases s.len() - pos,
{
    lemma_find_from(s, pos, '\n');
    let le = find_from(s, pos, '\n');
    let mode = ModeModel::Code { language };
    let st = step_line(s, include_new_lines, pos, le, bstart, mode);
    let line = s.subrange(pos, le);
    if le >= s.len() {
        assert(tail_line_start(s, pos) == pos);
        assert(line =~= s.subrange(pos, s.len() as int));
        assert(trim_s(line) == "```"@);
    } else {
        if trim_s(line) == "```"@ {
            let r = scan_from(s, include_new_lines, pos, bstart, mode);
            assert(r.elements[0] == st.emitted[0]);
        } else {
            assert(tail_line_start(s, pos) == tail_line_start(s, le + 1));
            lemma_code_mode_emits_code_block(s, include_new_lines, le + 1, bstart,
                language);
            let rest = scan_from(s, include_new_lines, le + 1, st.bstart2, st.mode2);
            let r = scan_from(s, include_new_lines, pos, bstart, mode);
            assert(st.emitted.len() == 0);
            assert(r.elements =~= rest.elements);
        }
    }
}

/// Round trip for code blocks: the rendering of a code block whose
/// language is trimmed and single-line, and whose code is empty or ends
/// with a newline, parses back to an element stream whose first element is
/// a code block.
pub proof fn lemma_code_block_round_trip(
    language: Seq<char>,
    code: Seq<char>,
    include_new_lines: bool,
)
    requires
        trim_s(language) == language,
        forall|i: int| 0 <= i < language.len() ==> language[i] != '\n',
        code.len() == 0 || code.last() == '\n',
    ensures
        ({
            let r = scan(as_markdown_spec(ElemModel::CodeBlock { language, code }),
                include_new_lines);
            &&& r.elements.len() >= 1
            &&& r.elements[0] is CodeBlock
        }),
{
    reveal_strlit("```");
    reveal_strlit("\n");
    let s = as_markdown_spec(ElemModel::CodeBlock { language, code });
    assert(s == "```"@ + language + "\n"@ + code + "```"@);
    let ll = language.len() as int;
    let n = s.len() as int;
    // the first line is the opening fence
    let le0 = 3 + ll;
    assert(s[le0] == '\n');
    assert(forall|i: int| 0 <= i < 3 ==> #[trigger] s[i] == '`');
    assert(forall|i: int| 3 <= i < le0 ==> s[i] == language[i - 3]);
    lemma_find_from(s, 0, '\n');
    let le = find_from(s, 0, '\n');
    assert(le <= le0);
    assert(le < le0 ==> s[le] != '\n');
    assert(le == le0);
    let line = s.subrange(0, le0);
    assert(line =~= "```"@ + language);
    assert(line[0] == '`');
    assert(!is_space('`'));
    lemma_trim_start_at(line, 0);
    assert(line.subrange(0, line.len() as int) =~= line);
    if language.len() > 0 {
        lemma_trimmed_ends(language);
        assert(line.last() == language.last());
    } else {
        assert(line.last() == '`');
    }
    lemma_trim_end_at(line, line.len() as int);
    assert(line.subrange(0, line.len() as int) =~= line);
    let t = trim_s(line);
    assert(t == line);
    assert(t.subrange(0, 3) =~= "```"@);
    assert(crate::text::has_prefix(t, "```"@));
    let st = step_line(s, include_new_lines, 0, le0, 0, ModeModel::Text);
    assert(st.emitted.len() == 0);
    assert(st.mode2 == ModeModel::Code { language: t.subrange(3, t.len() as int) });
    // the final line is the closing fence
    let m = n - 3;
    assert(s[m - 1] == '\n');
    assert(forall|i: int| m <= i < n ==> s[i] == '`');
    lemma_tail_line_start(s, le0 + 1, m);
    let tail = s.subrange(m, n);
    assert(tail =~= "```"@);
    assert(!is_space(tail[0]) && !is_space(tail.last()));
    lemma_trim_start_at(tail, 0);
    assert(tail.subrange(0, tail.len() as int) =~= tail);
    lemma_trim_end_at(tail, tail.len() as int);
    assert(trim_s(tail) == tail);
    lemma_code_mode_emits_code_block(s, include_new_lines, le0 + 1, st.bstart2,
        t.subrange(3, t.len() as int));
    let r = scan(s, include_new_lines);
    let rest = scan_from(s, include_new_lines, le0 + 1, st.bstart2, st.mode2);
    assert(r.elements =~= rest.elements);
}


/// One tokenizer step in the trace of a walk: the region of the text it
/// consumed and the span it produced, if any.
pub struct TokTraceEntry {
    pub start: int,
    pub end: int,
    pub token: Option<TextElemModel>,
}

/// The trace of a tokenizer walk: one entry per step, from `st` to the end
/// of the text.
pub open spec fn tok_trace(s: Seq<char>, st: TokState) -> Seq<TokTraceEntry>
    decreases s.len() - st.last,
    via tok_trace_decreases
{
    if st.last < 0 || st.last >= s.len() {
        Seq::empty()
    } else {
        let r = tok_scan(s, st, 0, None, 0);
        seq![TokTraceEntry { start: st.last, end: r.1.last, token: r.0 }] + tok_trace(s, r.1)
    }
}

#[via_fn]
proof fn tok_trace_decreases(s: Seq<char>, st: TokState) {
    if 0 <= st.last < s.len() {
        lemma_tok_scan_advances(s, st, 0, None, 0);
    }
}

/// The spans a trace produced, in order.
pub open spec fn tok_trace_tokens(tr: Seq<TokTraceEntry>) -> Seq<TextElemModel>
    decreases tr.len(),
{
    if tr.len() == 0 {
        Seq::empty()
    } else {
        match tr[0].token {
            Some(t) => seq![t] + tok_trace_tokens(tr.drop_first()),
            None => tok_trace_tokens(tr.drop_first()),
        }
    }
}

/// The trace produces exactly the tokenization.
pub proof fn lemma_tok_trace_tokens(s: Seq<char>, st: TokState)
    requires
        0 <= st.last,
    ensures
        tok_trace_tokens(tok_trace(s, st)) == tokenize_from(s, st),
    decreases s.len() - st.last,
{
    let tr = tok_trace(s, st);
    if st.last >= s.len() {
        assert(tr.len() == 0);
        assert(tok_trace_tokens(tr) =~= tokenize_from(s, st));
    } else {
        lemma_tok_scan_advances(s, st, 0, None, 0);
        let r = tok_scan(s, st, 0, None, 0);
        lemma_tok_trace_tokens(s, r.1);
        let rest = tok_trace(s, r.1);
        assert(tr.drop_first() =~= rest);
        match r.0 {
            Some(t) => {
                assert(tok_trace_tokens(tr) == seq![t] + tok_trace_tokens(rest));
                assert(tok_trace_tokens(tr) =~= tokenize_from(s, st));
            },
            None => {
                assert(tok_trace_tokens(tr) == tok_trace_tokens(rest));
                assert(tok_trace_tokens(tr) =~= tokenize_from(s, st));
            },
        }
    }
}

/// The trace's regions tile the text from the cursor to the end, each step
/// advancing strictly.
pub proof fn lemma_tok_trace_covers(s: Seq<char>, st: TokState)
    requires
        0 <= st.last <= s.len(),
    ensures
        ({
            let tr = tok_trace(s, st);
            &&& st.last >= s.len() ==> tr.len() == 0
            &&& st.last < s.len() ==> tr.len() > 0 && tr[0].start == st.last && tr[tr.len()
                - 1].end == s.len()
            &&& forall|i: int| 0 <= i < tr.len() - 1 ==> #[trigger] tr[i].end == tr[i + 1].start
            &&& forall|i: int|
                0 <= i < tr.len() ==> #[trigger] tr[i].start < tr[i].end && tr[i].end
                    <= s.len()
        }),
    decreases s.len() - st.last,
{
    let tr = tok_trace(s, st);
    if st.last >= s.len() {
    } else {
        lemma_tok_scan_advances(s, st, 0, None, 0);
        let r = tok_scan(s, st, 0, None, 0);
        lemma_tok_trace_covers(s, r.1);
        let rest = tok_trace(s, r.1);
        if r.1.last >= s.len() {
            assert(tr.len() == 1);
        }
        assert forall|i: int| 0 <= i < tr.len() - 1 implies #[trigger] tr[i].end == tr[i
            + 1].start by {
            if i > 0 {
                assert(tr[i] == rest[i - 1]);
                assert(tr[i + 1] == rest[i]);
            } else {
                assert(tr[1] == rest[0]);
            }
        }
        assert forall|i: int|
            0 <= i < tr.len() implies #[trigger] tr[i].start < tr[i].end && tr[i].end
            <= s.len() by {
            if i > 0 {
                assert(tr[i] == rest[i - 1]);
            }
        }
    }
}

/// `text` is a contiguous piece of `s` lying inside `[a, b]`.
pub open spec fn span_within(s: Seq<char>, text: Seq<char>, a: int, b: int) -> bool {
    exists|c: int|
        a <= c && c + text.len() <= b && text == #[trigger] s.subrange(
            c,
            c + text.len() as int,
        )
}

/// Every piece of text a span carries lies inside `[a, b]` of `s`; a
/// chevron autolink repeats its label as its target, and a bare link or
/// media reference has an empty target.
pub open spec fn token_within(s: Seq<char>, t: TextElemModel, a: int, b: int) -> bool {
    match t {
        TextElemModel::Plain { text } => span_within(s, text, a, b),
        TextElemModel::Italic { text } => span_within(s, text, a, b),
        TextElemModel::Bold { text } => span_within(s, text, a, b),
        TextElemModel::BoldAndItalic { text } => span_within(s, text, a, b),
        TextElemModel::Code { text } => span_within(s, text, a, b),
        TextElemModel::StrikeThrough { text } => span_within(s, text, a, b),
        TextElemModel::Emoji { text } => span_within(s, text, a, b),
        TextElemModel::Latex { text } => span_within(s, text, a, b),
        TextElemModel::Expression { text } => span_within(s, text, a, b),
        TextElemModel::Highlight { text } => span_within(s, text, a, b),
        TextElemModel::Superscript { text } => span_within(s, text, a, b),
        TextElemModel::Subscript { text } => span_within(s, text, a, b),
        TextElemModel::Tag { text } => span_within(s, text, a, b),
        TextElemModel::Link { on, to } => span_within(s, on, a, b) && (to
            == Seq::<char>::empty() || to == on || span_within(s, to, a, b)),
        TextElemModel::Media { alt, source } => span_within(s, alt, a, b) && (source
            == Seq::<char>::empty() || span_within(s, source, a, b)),
    }
}

/// Widening the left bound keeps a piece within the region.
proof fn lemma_span_within_widen(s: Seq<char>, x: Seq<char>, a: int, a2: int, b: int)
    requires
        span_within(s, x, a2, b),
        a <= a2,
    ensures
        span_within(s, x, a, b),
{
    let c = choose|c: int|
        a2 <= c && c + x.len() <= b && x == #[trigger] s.subrange(c, c + x.len() as int);
    assert(a <= c && c + x.len() <= b && x == s.subrange(c, c + x.len() as int));
}

/// Widening the left bound keeps a whole span within the region.
proof fn lemma_token_within_widen(s: Seq<char>, t: TextElemModel, a: int, a2: int, b: int)
    requires
        token_within(s, t, a2, b),
        a <= a2,
    ensures
        token_within(s, t, a, b),
{
    match t {
        TextElemModel::Link { on, to } => {
            lemma_span_within_widen(s, on, a, a2, b);
            if to != Seq::<char>::empty() && to != on {
                lemma_span_within_widen(s, to, a, a2, b);
            }
        },
        TextElemModel::Media { alt, source } => {
            lemma_span_within_widen(s, alt, a, a2, b);
            if source != Seq::<char>::empty() {
                lemma_span_within_widen(s, source, a, a2, b);
            }
        },
        TextElemModel::Plain { text } => lemma_span_within_widen(s, text, a, a2, b),
        TextElemModel::Italic { text } => lemma_span_within_widen(s, text, a, a2, b),
        TextElemModel::Bold { text } => lemma_span_within_widen(s, text, a, a2, b),
        TextElemModel::BoldAndItalic { text } => lemma_span_within_widen(s, text, a, a2, b),
        TextElemModel::Code { text } => lemma_span_within_widen(s, text, a, a2, b),
        TextElemModel::StrikeThrough { text } => lemma_span_within_widen(s, text, a, a2, b),
        TextElemModel::Emoji { text } => lemma_span_within_widen(s, text, a, a2, b),
        TextElemModel::Latex { text } => lemma_span_within_widen(s, text, a, a2, b),
        TextElemModel::Expression { text } => lemma_span_within_widen(s, text, a, a2, b),
        TextElemModel::Highlight { text } => lemma_span_within_widen(s, text, a, a2, b),
        TextElemModel::Superscript { text } => lemma_span_within_widen(s, text, a, a2, b),
        TextElemModel::Subscript { text } => lemma_span_within_widen(s, text, a, a2, b),
        TextElemModel::Tag { text } => lemma_span_within_widen(s, text, a, a2, b),
    }
}

/// Whatever span one scan produces lies within the region it consumed.
proof fn lemma_tok_scan_within(
    s: Seq<char>,
    st: TokState,
    idx: int,
    link_end: Option<int>,
    depth: int,
)
    requires
        0 <= st.last,
        0 <= idx,
        st.last + idx <= s.len(),
        link_end matches Some(l) ==> 0 <= l < idx,
    ensures
        ({
            let r = tok_scan(s, st, idx, link_end, depth);
            r.0 matches Some(t) ==> token_within(s, t, st.last, r.1.last)
        }),
    decreases s.len() - st.last, s.len() - st.last - idx, 1int,
{
    if st.last + idx >= s.len() {
        if s.len() - st.last > 0 {
            let text = s.subrange(st.last, s.len() as int);
            assert(text == s.subrange(st.last, st.last + text.len() as int));
        }
    } else {
        let chr = s[st.last + idx];
        if st.in_link || st.in_media {
            match link_end {
                Some(lte) => {
                    if idx == lte + 1 && chr != '(' {
                        let on_part = s.subrange(st.last, st.last + lte);
                        assert(on_part == s.subrange(st.last, st.last
                            + on_part.len() as int));
                    } else if idx != lte + 1 && chr == ')' {
                        let on_part = s.subrange(st.last, st.last + lte);
                        let to_part = s.subrange(st.last + lte + 2, st.last + idx);
                        assert(on_part == s.subrange(st.last, st.last
                            + on_part.len() as int));
                        assert(to_part == s.subrange(st.last + lte + 2, st.last + lte + 2
                            + to_part.len() as int));
                    } else {
                        lemma_tok_scan_within(s, st, idx + 1, link_end, depth);
                    }
                },
                None => {
                    if chr == ']' {
                        if depth > 0 {
                            lemma_tok_scan_within(s, st, idx + 1, None, depth - 1);
                        } else {
                            lemma_tok_scan_within(s, st, idx + 1, Some(idx), depth);
                        }
                    } else if chr == '[' {
                        lemma_tok_scan_within(s, st, idx + 1, None, depth + 1);
                    } else {
                        lemma_tok_scan_within(s, st, idx + 1, None, depth);
                    }
                },
            }
        } else if st.in_code {
            if chr == '`' {
                let text = s.subrange(st.last, st.last + idx);
                assert(text == s.subrange(st.last, st.last + text.len() as int));
            } else {
                lemma_tok_scan_within(s, st, idx + 1, link_end, depth);
            }
        } else if (st.in_latex && chr == '$') || (st.in_emoji && chr == ':')
            || (st.in_expression && chr == '}') || (st.in_chevron_link && chr == '>')
            || (st.in_tag && crate::inline::is_tag_end(chr)) {
            let text = s.subrange(st.last, st.last + idx);
            assert(text == s.subrange(st.last, st.last + text.len() as int));
        } else if chr == '`' {
            lemma_tok_yield_within(s, st.last, idx, TokState {
                in_code: true,
                ..crate::inline::with_last(st, st.last + idx + 1)
            });
        } else if chr == '$' {
            lemma_tok_yield_within(s, st.last, idx, TokState {
                in_latex: true,
                ..crate::inline::with_last(st, st.last + idx + 1)
            });
        } else if chr == '{' {
            lemma_tok_yield_within(s, st.last, idx, TokState {
                in_expression: true,
                ..crate::inline::with_last(st, st.last + idx + 1)
            });
        } else if chr == ':' && st.last + idx + 1 < s.len() && crate::inline::is_alnum(
            s[st.last + idx + 1],
        ) {
            lemma_tok_yield_within(s, st.last, idx, TokState {
                in_emoji: true,
                ..crate::inline::with_last(st, st.last + idx + 1)
            });
        } else if chr == '#' {
            lemma_tok_yield_within(s, st.last, idx, TokState {
                in_tag: true,
                ..crate::inline::with_last(st, st.last + idx + 1)
            });
        } else if chr == '<' && st.last + idx + 1 < s.len() && crate::inline::is_alnum(
            s[st.last + idx + 1],
        ) {
            lemma_tok_yield_within(s, st.last, idx, TokState {
                in_chevron_link: true,
                ..crate::inline::with_last(st, st.last + idx + 1)
            });
        } else if chr == '!' && st.last + idx + 1 < s.len() && s[st.last + idx + 1] == '[' {
            lemma_tok_yield_within(s, st.last, idx, TokState {
                in_media: true,
                ..crate::inline::with_last(st, st.last + idx + 2)
            });
        } else if chr == '[' {
            lemma_tok_yield_within(s, st.last, idx, TokState {
                in_link: true,
                ..crate::inline::with_last(st, st.last + idx + 1)
            });
        } else if chr == '*' || chr == '_' {
            if st.last + idx + 1 < s.len() && s[st.last + idx + 1] == chr {
                if st.in_bold {
                    let text = s.subrange(st.last, st.last + idx);
                    assert(text == s.subrange(st.last, st.last + text.len() as int));
                } else {
                    lemma_tok_yield_within(s, st.last, idx, TokState {
                        in_bold: true,
                        ..crate::inline::with_last(st, st.last + idx + 2)
                    });
                }
            } else {
                if st.in_italic {
                    let text = s.subrange(st.last, st.last + idx);
                    assert(text == s.subrange(st.last, st.last + text.len() as int));
                } else {
                    lemma_tok_yield_within(s, st.last, idx, TokState {
                        in_italic: true,
                        ..crate::inline::with_last(st, st.last + idx + 1)
                    });
                }
            }
        } else {
            lemma_tok_scan_within(s, st, idx + 1, link_end, depth);
        }
    }
}

/// Whatever span a flush produces lies within the region it consumed.
proof fn lemma_tok_yield_within(s: Seq<char>, start: int, idx: int, st2: TokState)
    requires
        0 <= start,
        0 <= idx,
        start + idx <= st2.last,
        st2.last <= s.len(),
    ensures
        ({
            let r = tok_yield(s, start, idx, st2);
            r.0 matches Some(t) ==> token_within(s, t, start, r.1.last)
        }),
    decreases s.len() - st2.last, s.len() - st2.last + 1, 0int,
{
    if idx > 0 {
        let text = s.subrange(start, start + idx);
        assert(text == s.subrange(start, start + text.len() as int));
    } else {
        lemma_tok_scan_within(s, st2, 0, None, 0);
        lemma_tok_scan_advances(s, st2, 0, None, 0);
        let r = tok_scan(s, st2, 0, None, 0);
        match r.0 {
            Some(t) => {
                lemma_token_within_widen(s, t, start, st2.last, r.1.last);
            },
            None => {},
        }
    }
}

/// Every span in the trace lies within the region of the step that
/// produced it.
pub proof fn lemma_tok_trace_within(s: Seq<char>, st: TokState)
    requires
        0 <= st.last <= s.len(),
    ensures
        ({
            let tr = tok_trace(s, st);
            forall|i: int|
                0 <= i < tr.len() ==> ((#[trigger] tr[i]).token matches Some(t)
                    ==> token_within(s, t, tr[i].start, tr[i].end))
        }),
    decreases s.len() - st.last,
{
    let tr = tok_trace(s, st);
    if st.last >= s.len() {
    } else {
        lemma_tok_scan_advances(s, st, 0, None, 0);
        lemma_tok_scan_within(s, st, 0, None, 0);
        let r = tok_scan(s, st, 0, None, 0);
        lemma_tok_trace_within(s, r.1);
        let rest = tok_trace(s, r.1);
        assert forall|i: int|
            0 <= i < tr.len() implies ((#[trigger] tr[i]).token matches Some(t)
            ==> token_within(s, t, tr[i].start, tr[i].end)) by {
            if i > 0 {
                assert(tr[i] == rest[i - 1]);
            }
        }
    }
}

/// Tokenizer totality and coverage: walking a text span terminates (the
/// cursor advances strictly at every step and the walk is a total
/// function), the steps' regions tile the whole span, the spans they
/// produce are exactly the tokenization, and each produced span's text
/// lies inside its own step's region — so no character is lost except the
/// delimiter characters consumed inside a step's region.
pub proof fn lemma_tokenizer_coverage(s: Seq<char>)
    ensures
        ({
            let tr = tok_trace(s, tok_init());
            &&& s.len() == 0 ==> tr.len() == 0
            &&& s.len() > 0 ==> tr.len() > 0 && tr[0].start == 0 && tr[tr.len() - 1].end
                == s.len()
            &&& forall|i: int| 0 <= i < tr.len() - 1 ==> #[trigger] tr[i].end == tr[i + 1].start
            &&& forall|i: int|
                0 <= i < tr.len() ==> #[trigger] tr[i].start < tr[i].end && tr[i].end
                    <= s.len()
            &&& tok_trace_tokens(tr) == tokenize(s)
            &&& forall|i: int|
                0 <= i < tr.len() ==> ((#[trigger] tr[i]).token matches Some(t)
                    ==> token_within(s, t, tr[i].start, tr[i].end))
        }),
{
    lemma_tok_trace_covers(s, tok_init());
    lemma_tok_trace_tokens(s, tok_init());
    lemma_tok_trace_within(s, tok_init());
}

} // verus!
