//! The block scanner: a single forward pass over the document, one step per
//! line.  A step either closes the multi-line block that is currently open
//! (code fence, command block, LaTeX block, comment, table, frontmatter),
//! keeps collecting into it, opens a new one, or classifies the line as a
//! single-line element.  The whole pass is specified by the recursive
//! [`scan_from`] and the executable scanner is verified against it.

use vstd::prelude::*;
use vstd::string::StrSliceExecFns;

use crate::classify::{classify, decide};
use crate::elements::{
    CommandBlock, MarkdownElement, ParseDiagnostic, ParseOptions, RawMarkdown, Table,
};
use crate::model::ElemModel;
use crate::text::{
    find_char_from, find_from, has_prefix, has_suffix, lemma_find_from, str_eq_str,
    str_has_prefix, str_has_suffix, trim_end_s, trim_end_str, trim_s, trim_start_s,
    trim_start_str, trim_str,
};

verus! {

/// Model of the scanner's mode: which multi-line construct is open, if any.
pub enum ModeModel {
    Text,
    Code { language: Seq<char> },
    Command { name: Seq<char>, arguments: Seq<char> },
    Latex,
    Comment,
    Table,
    Frontmatter,
}

/// What one scanner step does: the elements and diagnostics it emits, and
/// the mode and block-start offset it leaves behind.
pub struct StepModel {
    pub emitted: Seq<ElemModel>,
    pub diags: Seq<ParseDiagnostic>,
    pub mode2: ModeModel,
    pub bstart2: int,
}

/// Everything a scan of the rest of the document emits.
pub struct ScanModel {
    pub elements: Seq<ElemModel>,
    pub diags: Seq<ParseDiagnostic>,
}

/// `s` trimmed, with `left` and `right` stripped from its ends and the
/// middle trimmed again; `None` when either end does not match.
pub open spec fn strip_surrounds_spec(s: Seq<char>, left: Seq<char>, right: Seq<char>)
    -> Option<Seq<char>> {
    let t = trim_s(s);
    if has_prefix(t, left) {
        let rest = t.subrange(left.len() as int, t.len() as int);
        if has_suffix(rest, right) {
            Some(trim_s(rest.subrange(0, rest.len() - right.len())))
        } else {
            None
        }
    } else {
        None
    }
}

/// Whether `line` is the closing marker `{% /name %}` of the open command.
pub open spec fn is_command_close(line: Seq<char>, name: Seq<char>) -> bool {
    match strip_surrounds_spec(line, "{%"@, "%}"@) {
        Some(c) => {
            let ct = trim_s(c);
            ct.len() > 0 && ct[0] == '/' && ct.subrange(1, ct.len() as int) == name
        },
        None => false,
    }
}

/// The name/arguments split of a command opening: the part before the first
/// space and the part after it.
pub open spec fn split_command(c: Seq<char>) -> (Seq<char>, Seq<char>) {
    let k = find_from(c, 0, ' ');
    if k < c.len() {
        (c.subrange(0, k), c.subrange(k + 1, c.len() as int))
    } else {
        (c, Seq::<char>::empty())
    }
}

/// A step with no mode open: try each block opening in order (code fence,
/// LaTeX, comment, frontmatter at the document start, command, table), and
/// otherwise classify the line.  Blank lines are suppressed unless
/// `include_new_lines` is set.
pub open spec fn entry_step(
    s: Seq<char>,
    include_new_lines: bool,
    pos: int,
    le: int,
    at_start: bool,
) -> StepModel {
    let line = s.subrange(pos, le);
    let t = trim_s(line);
    let ts = trim_start_s(line);
    if has_prefix(t, "```"@) {
        StepModel {
            emitted: Seq::empty(),
            diags: Seq::empty(),
            mode2: ModeModel::Code { language: t.subrange(3, t.len() as int) },
            bstart2: le + 1,
        }
    } else if t == "$$"@ {
        StepModel {
            emitted: Seq::empty(),
            diags: Seq::empty(),
            mode2: ModeModel::Latex,
            bstart2: le + 1,
        }
    } else if has_prefix(ts, "%%"@) {
        let rest = trim_end_s(ts.subrange(2, ts.len() as int));
        if has_suffix(rest, "%%"@) {
            StepModel {
                emitted: seq![
                    ElemModel::CommentBlock {
                        text: trim_s(rest.subrange(0, rest.len() - 2)),
                    },
                ],
                diags: Seq::empty(),
                mode2: ModeModel::Text,
                bstart2: le + 1,
            }
        } else {
            StepModel {
                emitted: Seq::empty(),
                diags: Seq::empty(),
                mode2: ModeModel::Comment,
                bstart2: le + 1,
            }
        }
    } else if at_start && t == "---"@ {
        StepModel {
            emitted: Seq::empty(),
            diags: Seq::empty(),
            mode2: ModeModel::Frontmatter,
            bstart2: le + 1,
        }
    } else {
        match strip_surrounds_spec(line, "{%"@, "%}"@) {
            Some(c) => {
                let parts = split_command(c);
                StepModel {
                    emitted: Seq::empty(),
                    diags: Seq::empty(),
                    mode2: ModeModel::Command { name: parts.0, arguments: parts.1 },
                    bstart2: le + 1,
                }
            },
            None => {
                if line.len() > 0 && line[0] == '|' {
                    StepModel {
                        emitted: Seq::empty(),
                        diags: Seq::empty(),
                        mode2: ModeModel::Table,
                        bstart2: pos,
                    }
                } else {
                    match classify(line) {
                        Ok(e) => StepModel {
                            emitted: if e is Empty && !include_new_lines {
                                Seq::empty()
                            } else {
                                seq![e]
                            },
                            diags: Seq::empty(),
                            mode2: ModeModel::Text,
                            bstart2: le + 1,
                        },
                        Err(d) => StepModel {
                            emitted: Seq::empty(),
                            diags: seq![d],
                            mode2: ModeModel::Text,
                            bstart2: le + 1,
                        },
                    }
                }
            },
        }
    }
}

/// A `StepModel` that emits nothing and keeps the open mode.
pub open spec fn quiet_step(bstart: int, mode: ModeModel) -> StepModel {
    StepModel { emitted: Seq::empty(), diags: Seq::empty(), mode2: mode, bstart2: bstart }
}

/// One scanner step for the line `[pos, le)` of `s`: examine the line
/// against the open mode, or run the entry logic when none is open.  A table
/// is closed by the first line that does not end with `|`, and that line is
/// then re-examined by the entry logic.
pub open spec fn step_line(
    s: Seq<char>,
    include_new_lines: bool,
    pos: int,
    le: int,
    bstart: int,
    mode: ModeModel,
) -> StepModel {
    let line = s.subrange(pos, le);
    let t = trim_s(line);
    match mode {
        ModeModel::Code { language } => {
            if t == "```"@ {
                StepModel {
                    emitted: seq![
                        ElemModel::CodeBlock { language, code: s.subrange(bstart, pos) },
                    ],
                    diags: Seq::empty(),
                    mode2: ModeModel::Text,
                    bstart2: le + 1,
                }
            } else {
                quiet_step(bstart, mode)
            }
        },
        ModeModel::Command { name, arguments } => {
            if is_command_close(line, name) {
                StepModel {
                    emitted: seq![
                        ElemModel::CommandBlock {
                            name,
                            arguments,
                            inner: s.subrange(bstart, pos),
                        },
                    ],
                    diags: Seq::empty(),
                    mode2: ModeModel::Text,
                    bstart2: le + 1,
                }
            } else {
                quiet_step(bstart, mode)
            }
        },
        ModeModel::Latex => {
            if t == "$$"@ {
                StepModel {
                    emitted: seq![
                        ElemModel::LaTeXBlock { script: trim_s(s.subrange(bstart, pos)) },
                    ],
                    diags: Seq::empty(),
                    mode2: ModeModel::Text,
                    bstart2: le + 1,
                }
            } else {
                quiet_step(bstart, mode)
            }
        },
        ModeModel::Comment => {
            if has_suffix(t, "%%"@) {
                StepModel {
                    emitted: seq![
                        ElemModel::CommentBlock { text: trim_s(s.subrange(bstart, pos)) },
                    ],
                    diags: Seq::empty(),
                    mode2: ModeModel::Text,
                    bstart2: le + 1,
                }
            } else {
                quiet_step(bstart, mode)
            }
        },
        ModeModel::Frontmatter => {
            if t == "---"@ {
                StepModel {
                    emitted: seq![ElemModel::Frontmatter { text: s.subrange(bstart, pos) }],
                    diags: Seq::empty(),
                    mode2: ModeModel::Text,
                    bstart2: le + 1,
                }
            } else {
                quiet_step(bstart, mode)
            }
        },
        ModeModel::Table => {
            if line.len() > 0 && line.last() == '|' {
                quiet_step(bstart, mode)
            } else {
                let e = entry_step(s, include_new_lines, pos, le, false);
                StepModel {
                    emitted: seq![ElemModel::Table { region: s.subrange(bstart, pos) }]
                        + e.emitted,
                    diags: e.diags,
                    mode2: e.mode2,
                    bstart2: e.bstart2,
                }
            }
        },
        ModeModel::Text => entry_step(s, include_new_lines, pos, le, bstart == 0),
    }
}

/// What the end of input does to a still-open mode: a table is flushed as an
/// element, any other open multi-line construct is reported as unterminated.
pub open spec fn flush_model(s: Seq<char>, bstart: int, mode: ModeModel) -> ScanModel {
    match mode {
        ModeModel::Text => ScanModel { elements: Seq::empty(), diags: Seq::empty() },
        ModeModel::Table => ScanModel {
            elements: seq![ElemModel::Table { region: s.subrange(bstart, s.len() as int) }],
            diags: Seq::empty(),
        },
        ModeModel::Code { .. } => ScanModel {
            elements: Seq::empty(),
            diags: seq![ParseDiagnostic::UnterminatedCodeBlock],
        },
        ModeModel::Command { .. } => ScanModel {
            elements: Seq::empty(),
            diags: seq![ParseDiagnostic::UnterminatedCommandBlock],
        },
        ModeModel::Latex => ScanModel {
            elements: Seq::empty(),
            diags: seq![ParseDiagnostic::UnterminatedLatexBlock],
        },
        ModeModel::Comment => ScanModel {
            elements: Seq::empty(),
            diags: seq![ParseDiagnostic::UnterminatedComment],
        },
        ModeModel::Frontmatter => ScanModel {
            elements: Seq::empty(),
            diags: seq![ParseDiagnostic::UnterminatedFrontmatter],
        },
    }
}

/// The scan of `s` from the line starting at `pos`, with `mode` open since
/// `bstart`: step over one line per recursion; the line after the last
/// newline is processed like any other line, and whatever mode is still
/// open afterwards is flushed.
pub open spec fn scan_from(
    s: Seq<char>,
    include_new_lines: bool,
    pos: int,
    bstart: int,
    mode: ModeModel,
) -> ScanModel
    decreases s.len() - pos,
    via scan_from_decreases
{
    let le = find_from(s, pos, '\n');
    let st = step_line(s, include_new_lines, pos, le, bstart, mode);
    if le >= s.len() {
        let fl = flush_model(s, st.bstart2, st.mode2);
        ScanModel { elements: st.emitted + fl.elements, diags: st.diags + fl.diags }
    } else {
        let rest = scan_from(s, include_new_lines, le + 1, st.bstart2, st.mode2);
        ScanModel { elements: st.emitted + rest.elements, diags: st.diags + rest.diags }
    }
}

#[via_fn]
proof fn scan_from_decreases(
    s: Seq<char>,
    include_new_lines: bool,
    pos: int,
    bstart: int,
    mode: ModeModel,
) {
    if 0 <= pos <= s.len() {
        lemma_find_from(s, pos, '\n');
    }
}

/// The full scan of a document.
pub open spec fn scan(s: Seq<char>, include_new_lines: bool) -> ScanModel {
    scan_from(s, include_new_lines, 0, 0, ModeModel::Text)
}

/// The models of a sequence of elements.
pub open spec fn elems_view<'a>(v: Seq<MarkdownElement<'a>>) -> Seq<ElemModel> {
    v.map_values(|e: MarkdownElement<'a>| e@)
}

/// Everything a parse delivers: the elements in document order and the
/// diagnostics collected along the way.  The parse succeeded cleanly exactly
/// when `diagnostics` is empty.
pub struct ParseOutput<'a> {
    pub elements: Vec<MarkdownElement<'a>>,
    pub diagnostics: Vec<ParseDiagnostic>,
}

impl<'a> ParseOutput<'a> {
    /// Whether the parse succeeded without any diagnostic: no unterminated
    /// block, no unrepresentable level.
    pub fn is_clean(&self) -> (r: bool)
        ensures
            r == (self.diagnostics@.len() == 0),
    {
        self.diagnostics.len() == 0
    }
}

/// Strips `left` and `right` from the ends of `on` after trimming it, and
/// trims the middle; `None` when either end does not match.
pub fn strip_surrounds<'a>(on: &'a str, left: &str, right: &str) -> (r: Option<&'a str>)
    ensures
        match r {
            Some(c) => strip_surrounds_spec(on@, left@, right@)
                == Some::<Seq<char>>(c@),
            None => strip_surrounds_spec(on@, left@, right@) is None,
        },
{
    let t = trim_str(on);
    if str_has_prefix(t, left) {
        let tn = t.unicode_len();
        let rest = t.substring_char(left.unicode_len(), tn);
        if str_has_suffix(rest, right) {
            let rn = rest.unicode_len();
            Some(trim_str(rest.substring_char(0, rn - right.unicode_len())))
        } else {
            None
        }
    } else {
        None
    }
}

/// The scanner's mode: which multi-line construct is open, if any.
enum Mode<'a> {
    Text,
    Code { language: &'a str },
    Command { name: &'a str, arguments: &'a str },
    Latex,
    Comment,
    Table,
    Frontmatter,
}

impl<'a> Mode<'a> {
    spec fn view_m(&self) -> ModeModel {
        match self {
            Mode::Text => ModeModel::Text,
            Mode::Code { language } => ModeModel::Code { language: language@ },
            Mode::Command { name, arguments } => ModeModel::Command {
                name: name@,
                arguments: arguments@,
            },
            Mode::Latex => ModeModel::Latex,
            Mode::Comment => ModeModel::Comment,
            Mode::Table => ModeModel::Table,
            Mode::Frontmatter => ModeModel::Frontmatter,
        }
    }
}

/// Scans the rest of the document, one line per recursive call, appending
/// everything emitted to `elements` and `diagnostics`.
#[verifier::rlimit(100)]
fn scan_rest<'a>(
    on: &'a str,
    n: usize,
    include_new_lines: bool,
    pos: usize,
    bstart: usize,
    mode: Mode<'a>,
    elements: &mut Vec<MarkdownElement<'a>>,
    diagnostics: &mut Vec<ParseDiagnostic>,
)
    requires
        n == on@.len(),
        pos <= n,
        bstart <= pos,
    ensures
        elems_view(final(elements)@) == elems_view(old(elements)@)
            + scan_from(on@, include_new_lines, pos as int, bstart as int, mode.view_m()).elements,
        final(diagnostics)@ == old(diagnostics)@
            + scan_from(on@, include_new_lines, pos as int, bstart as int, mode.view_m()).diags,
    decreases n - pos,
{
    proof {
        lemma_find_from(on@, pos as int, '\n');
    }
    let ghost els0 = elements@;
    let ghost dgs0 = diagnostics@;
    let le = find_char_from(on, n, pos, '\n');
    let ghost st = step_line(on@, include_new_lines, pos as int, le as int, bstart as int,
        mode.view_m());

    let (mode2, bstart2): (Mode<'a>, usize) = step_exec(on, n, include_new_lines, pos, le,
        bstart, mode, elements, diagnostics);

    if le < n {
        scan_rest(on, n, include_new_lines, le + 1, bstart2, mode2, elements, diagnostics);
        proof {
            assert(elems_view(elements@) =~= elems_view(els0)
                + scan_from(on@, include_new_lines, pos as int, bstart as int, mode.view_m())
                    .elements);
            assert(diagnostics@ =~= dgs0
                + scan_from(on@, include_new_lines, pos as int, bstart as int, mode.view_m())
                    .diags);
        }
    } else {
        let ghost fl = flush_model(on@, st.bstart2, st.mode2);
        match mode2 {
            Mode::Text => {},
            Mode::Table => {
                elements.push(MarkdownElement::Table(Table(
                    on.substring_char(bstart2, n),
                )));
            },
            Mode::Code { .. } => {
                diagnostics.push(ParseDiagnostic::UnterminatedCodeBlock);
            },
            Mode::Command { .. } => {
                diagnostics.push(ParseDiagnostic::UnterminatedCommandBlock);
            },
            Mode::Latex => {
                diagnostics.push(ParseDiagnostic::UnterminatedLatexBlock);
            },
            Mode::Comment => {
                diagnostics.push(ParseDiagnostic::UnterminatedComment);
            },
            Mode::Frontmatter => {
                diagnostics.push(ParseDiagnostic::UnterminatedFrontmatter);
            },
        }
        proof {
            assert(elems_view(elements@) =~= elems_view(els0) + st.emitted + fl.elements);
            assert(diagnostics@ =~= dgs0 + st.diags + fl.diags);
        }
    }
}

/// One scanner step: examines the line `[pos, le)` against the open mode
/// and performs whatever `step_line` says it does, returning the mode and
/// block start left behind.
#[verifier::rlimit(100)]
fn step_exec<'a>(
    on: &'a str,
    n: usize,
    include_new_lines: bool,
    pos: usize,
    le: usize,
    bstart: usize,
    mode: Mode<'a>,
    elements: &mut Vec<MarkdownElement<'a>>,
    diagnostics: &mut Vec<ParseDiagnostic>,
) -> (r: (Mode<'a>, usize))
    requires
        n == on@.len(),
        pos <= le <= n,
        bstart <= pos,
        le == find_from(on@, pos as int, '\n'),
    ensures
        ({
            let st = step_line(on@, include_new_lines, pos as int, le as int, bstart as int,
                mode.view_m());
            &&& r.0.view_m() == st.mode2
            &&& elems_view(final(elements)@) == elems_view(old(elements)@) + st.emitted
            &&& final(diagnostics)@ == old(diagnostics)@ + st.diags
            &&& le < n ==> st.bstart2 == r.1 as int
            &&& r.0.view_m() is Table ==> st.bstart2 == r.1 as int
            &&& r.1 <= n
            &&& r.1 <= le + 1
        }),
{
    proof {
        reveal_strlit("```");
        reveal_strlit("$$");
        reveal_strlit("%%");
        reveal_strlit("---");
        reveal_strlit("{%");
        reveal_strlit("%}");
    }
    let ghost els0 = elements@;
    let ghost dgs0 = diagnostics@;
    let line: &'a str = on.substring_char(pos, le);
    let ghost st = step_line(on@, include_new_lines, pos as int, le as int, bstart as int,
        mode.view_m());

    let r: (Mode<'a>, usize) = match mode {
        Mode::Code { language } => {
            let t = trim_str(line);
            if str_eq_str(t, "```") {
                elements.push(MarkdownElement::CodeBlock {
                    language,
                    code: on.substring_char(bstart, pos),
                });
                (Mode::Text, if le < n { le + 1 } else { n })
            } else {
                (Mode::Code { language }, bstart)
            }
        },
        Mode::Command { name, arguments } => {
            let mut closed = false;
            if let Some(c) = strip_surrounds(line, "{%", "%}") {
                let ct = trim_str(c);
                let cn = ct.unicode_len();
                if cn > 0 && ct.get_char(0) == '/' {
                    if str_eq_str(ct.substring_char(1, cn), name) {
                        closed = true;
                    }
                }
            }
            if closed {
                elements.push(MarkdownElement::CommandBlock(CommandBlock {
                    name,
                    arguments,
                    inner: RawMarkdown(on.substring_char(bstart, pos)),
                }));
                (Mode::Text, if le < n { le + 1 } else { n })
            } else {
                (Mode::Command { name, arguments }, bstart)
            }
        },
        Mode::Latex => {
            let t = trim_str(line);
            if str_eq_str(t, "$$") {
                elements.push(MarkdownElement::LaTeXBlock {
                    script: trim_str(on.substring_char(bstart, pos)),
                });
                (Mode::Text, if le < n { le + 1 } else { n })
            } else {
                (Mode::Latex, bstart)
            }
        },
        Mode::Comment => {
            let t = trim_str(line);
            if str_has_suffix(t, "%%") {
                elements.push(MarkdownElement::CommentBlock(
                    trim_str(on.substring_char(bstart, pos)),
                ));
                (Mode::Text, if le < n { le + 1 } else { n })
            } else {
                (Mode::Comment, bstart)
            }
        },
        Mode::Frontmatter => {
            let t = trim_str(line);
            if str_eq_str(t, "---") {
                elements.push(MarkdownElement::Frontmatter(
                    on.substring_char(bstart, pos),
                ));
                (Mode::Text, if le < n { le + 1 } else { n })
            } else {
                (Mode::Frontmatter, bstart)
            }
        },
        Mode::Table => {
            let ln = line.unicode_len();
            if ln > 0 && line.get_char(ln - 1) == '|' {
                (Mode::Table, bstart)
            } else {
                elements.push(MarkdownElement::Table(Table(
                    on.substring_char(bstart, pos),
                )));
                entry_line(on, n, include_new_lines, pos, le, line, false, elements,
                    diagnostics)
            }
        },
        Mode::Text => entry_line(on, n, include_new_lines, pos, le, line, bstart == 0,
            elements, diagnostics),
    };

    proof {
        assert(r.0.view_m() == st.mode2);
        assert(elems_view(elements@) =~= elems_view(els0) + st.emitted);
        assert(diagnostics@ =~= dgs0 + st.diags);
    }
    r
}

/// The entry logic for one line, shared by the no-mode step and the
/// re-examination of the line that closes a table.  Returns the mode and
/// block start left behind; must match `entry_step`.
#[verifier::rlimit(50)]
fn entry_line<'a>(
    on: &'a str,
    n: usize,
    include_new_lines: bool,
    pos: usize,
    le: usize,
    line: &'a str,
    at_start: bool,
    elements: &mut Vec<MarkdownElement<'a>>,
    diagnostics: &mut Vec<ParseDiagnostic>,
) -> (r: (Mode<'a>, usize))
    requires
        n == on@.len(),
        pos <= le <= n,
        line@ == on@.subrange(pos as int, le as int),
    ensures
        ({
            let st = entry_step(on@, include_new_lines, pos as int, le as int, at_start);
            &&& r.0.view_m() == st.mode2
            &&& elems_view(final(elements)@) == elems_view(old(elements)@) + st.emitted
            &&& final(diagnostics)@ == old(diagnostics)@ + st.diags
            &&& le < n ==> st.bstart2 == r.1 as int
            &&& r.0.view_m() is Table ==> st.bstart2 == r.1 as int
            &&& r.1 <= n
            &&& r.0.view_m() is Table ==> r.1 == pos
        }),
{
    proof {
        reveal_strlit("```");
        reveal_strlit("$$");
        reveal_strlit("%%");
        reveal_strlit("---");
        reveal_strlit("{%");
        reveal_strlit("%}");
        reveal_strlit("");
    }
    let next_start: usize = if le < n { le + 1 } else { n };
    let ts = trim_start_str(line);
    let t = trim_end_str(ts);
    if str_has_prefix(t, "```") {
        let tn = t.unicode_len();
        let language = t.substring_char(3, tn);
        (Mode::Code { language }, next_start)
    } else if str_eq_str(t, "$$") {
        (Mode::Latex, next_start)
    } else if str_has_prefix(ts, "%%") {
        let tsn = ts.unicode_len();
        let rest = trim_end_str(ts.substring_char(2, tsn));
        if str_has_suffix(rest, "%%") {
            let rn = rest.unicode_len();
            elements.push(MarkdownElement::CommentBlock(
                trim_str(rest.substring_char(0, rn - 2)),
            ));
            (Mode::Text, next_start)
        } else {
            (Mode::Comment, next_start)
        }
    } else if at_start && str_eq_str(t, "---") {
        (Mode::Frontmatter, next_start)
    } else if let Some(c) = strip_surrounds(line, "{%", "%}") {
        let cn = c.unicode_len();
        let k = find_char_from(c, cn, 0, ' ');
        proof {
            lemma_find_from(c@, 0, ' ');
        }
        let (name, arguments): (&'a str, &'a str) = if k < cn {
            (c.substring_char(0, k), c.substring_char(k + 1, cn))
        } else {
            proof {
                assert(""@ =~= Seq::<char>::empty());
            }
            (c, "")
        };
        (Mode::Command { name, arguments }, next_start)
    } else {
        let ln = line.unicode_len();
        if ln > 0 && line.get_char(0) == '|' {
            (Mode::Table, pos)
        } else {
            match decide(line) {
                Ok(e) => {
                    let suppress = !include_new_lines && matches!(e, MarkdownElement::Empty);
                    if !suppress {
                        elements.push(e);
                    }
                    (Mode::Text, next_start)
                },
                Err(d) => {
                    diagnostics.push(d);
                    (Mode::Text, next_start)
                },
            }
        }
    }
}

/// Parses the whole document: one element per block, in document order, and
/// a diagnostic for each anomaly met on the way.  The result is exactly
/// [`scan`] of the document's characters.
pub fn parse_with_options<'a>(on: &'a str, options: &ParseOptions) -> (r: ParseOutput<'a>)
    ensures
        elems_view(r.elements@) == scan(on@, options.include_new_lines).elements,
        r.diagnostics@ == scan(on@, options.include_new_lines).diags,
{
    let n = on.unicode_len();
    let mut elements: Vec<MarkdownElement<'a>> = Vec::new();
    let mut diagnostics: Vec<ParseDiagnostic> = Vec::new();
    scan_rest(on, n, options.include_new_lines, 0, 0, Mode::Text, &mut elements,
        &mut diagnostics);
    proof {
        assert(elems_view(elements@) =~= scan(on@, options.include_new_lines).elements);
        assert(diagnostics@ =~= scan(on@, options.include_new_lines).diags);
    }
    ParseOutput { elements, diagnostics }
}

/// Parses the whole document with the default options: blank lines are
/// suppressed.
pub fn parse<'a>(on: &'a str) -> (r: ParseOutput<'a>)
    ensures
        elems_view(r.elements@) == scan(on@, false).elements,
        r.diagnostics@ == scan(on@, false).diags,
{
    let options = ParseOptions::default();
    parse_with_options(on, &options)
}

} // verus!
