//! The inline tokenizer: walks the text of one block and yields decorated
//! spans (bold, italic, code, links, media, tags, emoji, LaTeX,
//! expressions).  One [`PartsIterator::next`] call scans forward from the
//! cursor to the next complete span; the whole walk is specified by the
//! recursive [`tok_scan`] / [`tokenize_from`] and the executable code is
//! verified against them.

use vstd::prelude::*;
use vstd::string::StrSliceExecFns;
use vstd::string::StringExecFns;

use crate::elements::{MarkdownTextElement, RawText};
use crate::model::TextElemModel;

verus! {

/// Whether `c` is an ASCII letter or digit; the tokenizer's trigger guard
/// for emoji runs and chevron autolinks.
pub open spec fn is_alnum(c: char) -> bool {
    (('a' as u32) <= (c as u32) && (c as u32) <= ('z' as u32))
        || (('A' as u32) <= (c as u32) && (c as u32) <= ('Z' as u32))
        || (('0' as u32) <= (c as u32) && (c as u32) <= ('9' as u32))
}

/// Whether `c` ends a tag run: the same whitespace the library trims on.
pub open spec fn is_tag_end(c: char) -> bool {
    crate::text::is_space(c)
}

/// The tokenizer's state: the cursor and which decoration the cursor is
/// currently inside.
pub struct TokState {
    pub last: int,
    pub in_tag: bool,
    pub in_bold: bool,
    pub in_italic: bool,
    pub in_code: bool,
    pub in_latex: bool,
    pub in_emoji: bool,
    pub in_link: bool,
    pub in_chevron_link: bool,
    pub in_media: bool,
    pub in_expression: bool,
}

/// `st` with a new cursor.
pub open spec fn with_last(st: TokState, last: int) -> TokState {
    TokState { last, ..st }
}

/// The state a fresh tokenizer starts in.
pub open spec fn tok_init() -> TokState {
    TokState {
        last: 0,
        in_tag: false,
        in_bold: false,
        in_italic: false,
        in_code: false,
        in_latex: false,
        in_emoji: false,
        in_link: false,
        in_chevron_link: false,
        in_media: false,
        in_expression: false,
    }
}

/// One forward scan from `st.last`, currently looking at the character
/// `idx` positions further on.  `link_end` remembers where a link label's
/// closing `]` was seen and `depth` the bracket nesting inside the label.
///
/// Checked in order: an open link or media capture; an open code span; the
/// closing delimiter of an open LaTeX, emoji, expression or chevron span
/// (a non-closing character falls through to the triggers below, as the
/// scanner's transition order demands); the end of an open tag; and then
/// the trigger characters, at which the accumulated plain run is flushed
/// first if it is non-empty, or the scan restarts past the marker if not.
/// Reaching the end of the text yields the remainder as a plain span.
pub open spec fn tok_scan(
    s: Seq<char>,
    st: TokState,
    idx: int,
    link_end: Option<int>,
    depth: int,
) -> (Option<TextElemModel>, TokState)
    decreases s.len() - st.last, s.len() - st.last - idx,
    via tok_scan_decreases
{
    if st.last < 0 || idx < 0 {
        (None::<TextElemModel>, with_last(st, s.len() as int))
    } else if st.last + idx >= s.len() {
        if s.len() - st.last <= 0 {
            (None::<TextElemModel>, with_last(st, s.len() as int))
        } else {
            (
                Some(TextElemModel::Plain { text: s.subrange(st.last, s.len() as int) }),
                with_last(st, s.len() as int),
            )
        }
    } else {
        let chr = s[st.last + idx];
        if st.in_link || st.in_media {
            match link_end {
                Some(lte) => {
                    if idx == lte + 1 && chr != '(' {
                        if st.in_link {
                            (
                                Some(TextElemModel::Link {
                                    on: s.subrange(st.last, st.last + lte),
                                    to: Seq::empty(),
                                }),
                                TokState { in_link: false, ..with_last(st, st.last + idx) },
                            )
                        } else {
                            (
                                Some(TextElemModel::Media {
                                    alt: s.subrange(st.last, st.last + lte),
                                    source: Seq::empty(),
                                }),
                                TokState { in_media: false, ..with_last(st, st.last + idx) },
                            )
                        }
                    } else if idx != lte + 1 && chr == ')' {
                        let on_part = s.subrange(st.last, st.last + lte);
                        let to_part = s.subrange(st.last + lte + 2, st.last + idx);
                        if st.in_link {
                            (
                                Some(TextElemModel::Link { on: on_part, to: to_part }),
                                TokState {
                                    in_link: false,
                                    ..with_last(st, st.last + idx + 1)
                                },
                            )
                        } else {
                            (
                                Some(TextElemModel::Media { alt: on_part, source: to_part }),
                                TokState {
                                    in_media: false,
                                    ..with_last(st, st.last + idx + 1)
                                },
                            )
                        }
                    } else {
                        tok_scan(s, st, idx + 1, link_end, depth)
                    }
                },
                None => {
                    if chr == ']' {
                        if depth > 0 {
                            tok_scan(s, st, idx + 1, None, depth - 1)
                        } else {
                            tok_scan(s, st, idx + 1, Some(idx), depth)
                        }
                    } else if chr == '[' {
                        tok_scan(s, st, idx + 1, None, depth + 1)
                    } else {
                        tok_scan(s, st, idx + 1, None, depth)
                    }
                },
            }
        } else if st.in_code {
            if chr == '`' {
                (
                    Some(TextElemModel::Code {
                        text: s.subrange(st.last, st.last + idx),
                    }),
                    TokState { in_code: false, ..with_last(st, st.last + idx + 1) },
                )
            } else {
                tok_scan(s, st, idx + 1, link_end, depth)
            }
        } else if st.in_latex && chr == '$' {
            (
                Some(TextElemModel::Latex { text: s.subrange(st.last, st.last + idx) }),
                TokState { in_latex: false, ..with_last(st, st.last + idx + 1) },
            )
        } else if st.in_emoji && chr == ':' {
            (
                Some(TextElemModel::Emoji { text: s.subrange(st.last, st.last + idx) }),
                TokState { in_emoji: false, ..with_last(st, st.last + idx + 1) },
            )
        } else if st.in_expression && chr == '}' {
            (
                Some(TextElemModel::Expression {
                    text: s.subrange(st.last, st.last + idx),
                }),
                TokState { in_expression: false, ..with_last(st, st.last + idx + 1) },
            )
        } else if st.in_chevron_link && chr == '>' {
            let inner = s.subrange(st.last, st.last + idx);
            (
                Some(TextElemModel::Link { on: inner, to: inner }),
                TokState { in_chevron_link: false, ..with_last(st, st.last + idx + 1) },
            )
        } else if st.in_tag && is_tag_end(chr) {
            (
                Some(TextElemModel::Tag { text: s.subrange(st.last, st.last + idx) }),
                TokState { in_tag: false, ..with_last(st, st.last + idx + 1) },
            )
        } else if chr == '`' {
            tok_yield(s, st.last, idx, TokState { in_code: true, ..with_last(st, st.last + idx + 1) })
        } else if chr == '$' {
            tok_yield(s, st.last, idx, TokState {
                in_latex: true,
                ..with_last(st, st.last + idx + 1)
            })
        } else if chr == '{' {
            tok_yield(s, st.last, idx, TokState {
                in_expression: true,
                ..with_last(st, st.last + idx + 1)
            })
        } else if chr == ':' && st.last + idx + 1 < s.len() && is_alnum(s[st.last + idx + 1]) {
            tok_yield(s, st.last, idx, TokState {
                in_emoji: true,
                ..with_last(st, st.last + idx + 1)
            })
        } else if chr == '#' {
            tok_yield(s, st.last, idx, TokState { in_tag: true, ..with_last(st, st.last + idx + 1) })
        } else if chr == '<' && st.last + idx + 1 < s.len() && is_alnum(s[st.last + idx + 1]) {
            tok_yield(s, st.last, idx, TokState {
                in_chevron_link: true,
                ..with_last(st, st.last + idx + 1)
            })
        } else if chr == '!' && st.last + idx + 1 < s.len() && s[st.last + idx + 1] == '[' {
            tok_yield(s, st.last, idx, TokState {
                in_media: true,
                ..with_last(st, st.last + idx + 2)
            })
        } else if chr == '[' {
            tok_yield(s, st.last, idx, TokState { in_link: true, ..with_last(st, st.last + idx + 1) })
        } else if chr == '*' || chr == '_' {
            if st.last + idx + 1 < s.len() && s[st.last + idx + 1] == chr {
                let st2 = TokState { in_bold: !st.in_bold, ..with_last(st, st.last + idx + 2) };
                if st.in_bold {
                    (
                        Some(TextElemModel::Bold {
                            text: s.subrange(st.last, st.last + idx),
                        }),
                        st2,
                    )
                } else {
                    tok_yield(s, st.last, idx, st2)
                }
            } else {
                let st2 = TokState {
                    in_italic: !st.in_italic,
                    ..with_last(st, st.last + idx + 1)
                };
                if st.in_italic {
                    (
                        Some(TextElemModel::Italic {
                            text: s.subrange(st.last, st.last + idx),
                        }),
                        st2,
                    )
                } else {
                    tok_yield(s, st.last, idx, st2)
                }
            }
        } else {
            tok_scan(s, st, idx + 1, link_end, depth)
        }
    }
}

/// Flushing at a trigger: return the accumulated plain run if it is
/// non-empty, else restart the scan past the marker with the new state.
pub open spec fn tok_yield(s: Seq<char>, start: int, idx: int, st2: TokState)
    -> (Option<TextElemModel>, TokState)
    decreases s.len() - st2.last, s.len() - st2.last + 1,
{
    if idx > 0 {
        (Some(TextElemModel::Plain { text: s.subrange(start, start + idx) }), st2)
    } else if 0 <= st2.last && st2.last <= s.len() {
        tok_scan(s, st2, 0, None, 0)
    } else {
        (None::<TextElemModel>, st2)
    }
}

#[via_fn]
proof fn tok_scan_decreases(
    s: Seq<char>,
    st: TokState,
    idx: int,
    link_end: Option<int>,
    depth: int,
) {
}

/// One tokenizer step from `st`: `None` past the end of the text, else a
/// fresh forward scan.
pub open spec fn tok_next(s: Seq<char>, st: TokState) -> (Option<TextElemModel>, TokState) {
    if st.last >= s.len() {
        (None::<TextElemModel>, st)
    } else {
        tok_scan(s, st, 0, None, 0)
    }
}

/// Every scan moves the cursor strictly forward and never past the end.
pub proof fn lemma_tok_scan_advances(
    s: Seq<char>,
    st: TokState,
    idx: int,
    link_end: Option<int>,
    depth: int,
)
    requires
        0 <= st.last,
        0 <= idx,
        st.last + idx <= s.len(),
        link_end matches Some(l) ==> 0 <= l,
    ensures
        ({
            let r = tok_scan(s, st, idx, link_end, depth);
            &&& r.1.last <= s.len()
            &&& st.last <= r.1.last
            &&& st.last < s.len() ==> st.last < r.1.last
            &&& r.0 is None ==> r.1.last == s.len()
        }),
    decreases s.len() - st.last, s.len() - st.last - idx,
{
    if st.last + idx >= s.len() {
    } else {
        let chr = s[st.last + idx];
        if st.in_link || st.in_media {
            match link_end {
                Some(lte) => {
                    if idx == lte + 1 && chr != '(' {
                    } else if idx != lte + 1 && chr == ')' {
                    } else {
                        lemma_tok_scan_advances(s, st, idx + 1, link_end, depth);
                    }
                },
                None => {
                    if chr == ']' {
                        if depth > 0 {
                            lemma_tok_scan_advances(s, st, idx + 1, None, depth - 1);
                        } else {
                            lemma_tok_scan_advances(s, st, idx + 1, Some(idx), depth);
                        }
                    } else if chr == '[' {
                        lemma_tok_scan_advances(s, st, idx + 1, None, depth + 1);
                    } else {
                        lemma_tok_scan_advances(s, st, idx + 1, None, depth);
                    }
                },
            }
        } else if st.in_code {
            if chr != '`' {
                lemma_tok_scan_advances(s, st, idx + 1, link_end, depth);
            }
        } else if st.in_latex && chr == '$' {
        } else if st.in_emoji && chr == ':' {
        } else if st.in_expression && chr == '}' {
        } else if st.in_chevron_link && chr == '>' {
        } else if st.in_tag && is_tag_end(chr) {
        } else if chr == '`' {
            lemma_tok_yield_advances(s, st.last, idx, TokState {
                in_code: true,
                ..with_last(st, st.last + idx + 1)
            });
        } else if chr == '$' {
            lemma_tok_yield_advances(s, st.last, idx, TokState {
                in_latex: true,
                ..with_last(st, st.last + idx + 1)
            });
        } else if chr == '{' {
            lemma_tok_yield_advances(s, st.last, idx, TokState {
                in_expression: true,
                ..with_last(st, st.last + idx + 1)
            });
        } else if chr == ':' && st.last + idx + 1 < s.len() && is_alnum(s[st.last + idx + 1]) {
            lemma_tok_yield_advances(s, st.last, idx, TokState {
                in_emoji: true,
                ..with_last(st, st.last + idx + 1)
            });
        } else if chr == '#' {
            lemma_tok_yield_advances(s, st.last, idx, TokState {
                in_tag: true,
                ..with_last(st, st.last + idx + 1)
            });
        } else if chr == '<' && st.last + idx + 1 < s.len() && is_alnum(s[st.last + idx + 1]) {
            lemma_tok_yield_advances(s, st.last, idx, TokState {
                in_chevron_link: true,
                ..with_last(st, st.last + idx + 1)
            });
        } else if chr == '!' && st.last + idx + 1 < s.len() && s[st.last + idx + 1] == '[' {
            lemma_tok_yield_advances(s, st.last, idx, TokState {
                in_media: true,
                ..with_last(st, st.last + idx + 2)
            });
        } else if chr == '[' {
            lemma_tok_yield_advances(s, st.last, idx, TokState {
                in_link: true,
                ..with_last(st, st.last + idx + 1)
            });
        } else if chr == '*' || chr == '_' {
            if st.last + idx + 1 < s.len() && s[st.last + idx + 1] == chr {
                if !st.in_bold {
                    lemma_tok_yield_advances(s, st.last, idx, TokState {
                        in_bold: true,
                        ..with_last(st, st.last + idx + 2)
                    });
                }
            } else {
                if !st.in_italic {
                    lemma_tok_yield_advances(s, st.last, idx, TokState {
                        in_italic: !st.in_italic,
                        ..with_last(st, st.last + idx + 1)
                    });
                }
            }
        } else {
            lemma_tok_scan_advances(s, st, idx + 1, link_end, depth);
        }
    }
}

/// The flush helper moves the cursor forward just like the scan.
pub proof fn lemma_tok_yield_advances(s: Seq<char>, start: int, idx: int, st2: TokState)
    requires
        0 <= start,
        0 <= idx,
        start < st2.last,
        st2.last <= s.len(),
    ensures
        ({
            let r = tok_yield(s, start, idx, st2);
            &&& r.1.last <= s.len()
            &&& start < r.1.last
            &&& r.0 is None ==> r.1.last == s.len()
        }),
    decreases s.len() - st2.last, s.len() as int + 1,
{
    if idx > 0 {
    } else {
        lemma_tok_scan_advances(s, st2, 0, None, 0);
    }
}

/// All the spans the tokenizer yields from `st` on.
pub open spec fn tokenize_from(s: Seq<char>, st: TokState) -> Seq<TextElemModel>
    decreases s.len() - st.last,
    via tokenize_from_decreases
{
    if st.last >= s.len() || st.last < 0 {
        Seq::empty()
    } else {
        let r = tok_scan(s, st, 0, None, 0);
        match r.0 {
            Some(t) => seq![t] + tokenize_from(s, r.1),
            None => tokenize_from(s, r.1),
        }
    }
}

#[via_fn]
proof fn tokenize_from_decreases(s: Seq<char>, st: TokState) {
    if 0 <= st.last < s.len() {
        lemma_tok_scan_advances(s, st, 0, None, 0);
    }
}

/// The full decoration of a text span.
pub open spec fn tokenize(s: Seq<char>) -> Seq<TextElemModel> {
    tokenize_from(s, tok_init())
}

/// The undecorated text one inline span contributes: its content for the
/// wrapped decorations, nothing for expressions, media and links.
pub open spec fn strip_one(t: TextElemModel) -> Seq<char> {
    match t {
        TextElemModel::Plain { text } => text,
        TextElemModel::Italic { text } => text,
        TextElemModel::Bold { text } => text,
        TextElemModel::BoldAndItalic { text } => text,
        TextElemModel::Code { text } => text,
        TextElemModel::StrikeThrough { text } => text,
        TextElemModel::Emoji { text } => text,
        TextElemModel::Latex { text } => text,
        TextElemModel::Highlight { text } => text,
        TextElemModel::Superscript { text } => text,
        TextElemModel::Subscript { text } => text,
        TextElemModel::Tag { text } => text,
        TextElemModel::Expression { .. } => Seq::empty(),
        TextElemModel::Link { .. } => Seq::empty(),
        TextElemModel::Media { .. } => Seq::empty(),
    }
}

/// The concatenated undecorated text of a span list.
pub open spec fn strip_list(ts: Seq<TextElemModel>) -> Seq<char>
    decreases ts.len(),
{
    if ts.len() == 0 {
        Seq::empty()
    } else {
        strip_one(ts[0]) + strip_list(ts.drop_first())
    }
}

/// The undecorated text of a whole span.
pub open spec fn strip_marks(s: Seq<char>) -> Seq<char> {
    strip_list(tokenize(s))
}

/// One tokenizer step and what it leaves behind, as `tok_next` gives it.
pub proof fn lemma_tok_next(s: Seq<char>, st: TokState)
    requires
        0 <= st.last,
    ensures
        ({
            let r = tok_next(s, st);
            &&& st.last >= s.len() ==> r.1 == st
            &&& st.last < s.len() ==> st.last < r.1.last <= s.len()
            &&& r.0 is None ==> r.1.last >= s.len()
        }),
{
    if st.last < s.len() {
        lemma_tok_scan_advances(s, st, 0, None, 0);
    }
}

/// The models of a sequence of inline spans.
pub open spec fn parts_view<'a>(v: Seq<MarkdownTextElement<'a>>) -> Seq<TextElemModel> {
    v.map_values(|t: MarkdownTextElement<'a>| t@)
}

/// The model of one optional inline span.
pub open spec fn tok_opt_view<'a>(r: Option<MarkdownTextElement<'a>>)
    -> Option<TextElemModel> {
    match r {
        Some(t) => Some(t@),
        None => None,
    }
}

/// The decoration flags of a tokenizer, without the cursor.
#[derive(Clone, Copy)]
struct Flags {
    in_tag: bool,
    in_bold: bool,
    in_italic: bool,
    in_code: bool,
    in_latex: bool,
    in_emoji: bool,
    in_link: bool,
    in_chevron_link: bool,
    in_media: bool,
    in_expression: bool,
}

impl Flags {
    spec fn state(&self, last: int) -> TokState {
        TokState {
            last,
            in_tag: self.in_tag,
            in_bold: self.in_bold,
            in_italic: self.in_italic,
            in_code: self.in_code,
            in_latex: self.in_latex,
            in_emoji: self.in_emoji,
            in_link: self.in_link,
            in_chevron_link: self.in_chevron_link,
            in_media: self.in_media,
            in_expression: self.in_expression,
        }
    }
}

/// The `Option<usize>` bookmark as the specification's `Option<int>`.
spec fn opt_int(o: Option<usize>) -> Option<int> {
    match o {
        Some(l) => Some(l as int),
        None => None,
    }
}

/// Whether `c` is an ASCII letter or digit.
fn is_alnum_char(c: char) -> (r: bool)
    ensures
        r == is_alnum(c),
{
    let u = c as u32;
    (('a' as u32) <= u && u <= ('z' as u32)) || (('A' as u32) <= u && u <= ('Z' as u32))
        || (('0' as u32) <= u && u <= ('9' as u32))
}

/// The executable forward scan; performs exactly what `tok_scan` says.
#[verifier::rlimit(100)]
fn scan_step<'a>(
    on: &'a str,
    n: usize,
    last: usize,
    f: Flags,
    idx: usize,
    link_end: Option<usize>,
    depth: usize,
) -> (r: (Option<MarkdownTextElement<'a>>, usize, Flags))
    requires
        n == on@.len(),
        last + idx <= n,
        link_end matches Some(l) ==> l < idx,
        depth <= idx,
    ensures
        ({
            let rr = tok_scan(on@, f.state(last as int), idx as int, opt_int(link_end),
                depth as int);
            &&& tok_opt_view(r.0) == rr.0
            &&& r.2.state(r.1 as int) == rr.1
            &&& r.1 <= n
        }),
    decreases n - last, n - last - idx, 2int,
{
    if last + idx >= n {
        if n - last == 0 {
            (None, n, f)
        } else {
            (Some(MarkdownTextElement::Plain(on.substring_char(last, n))), n, f)
        }
    } else {
        let chr = on.get_char(last + idx);
        if f.in_link || f.in_media {
            capture_step(on, n, last, f, idx, link_end, depth)
        } else if f.in_code {
            if chr == '`' {
                (
                    Some(MarkdownTextElement::Code(on.substring_char(last, last + idx))),
                    last + idx + 1,
                    Flags { in_code: false, ..f },
                )
            } else {
                scan_step(on, n, last, f, idx + 1, link_end, depth)
            }
        } else if f.in_latex && chr == '$' {
            (
                Some(MarkdownTextElement::Latex(on.substring_char(last, last + idx))),
                last + idx + 1,
                Flags { in_latex: false, ..f },
            )
        } else if f.in_emoji && chr == ':' {
            (
                Some(MarkdownTextElement::Emoji(on.substring_char(last, last + idx))),
                last + idx + 1,
                Flags { in_emoji: false, ..f },
            )
        } else if f.in_expression && chr == '}' {
            (
                Some(MarkdownTextElement::Expression(on.substring_char(last, last + idx))),
                last + idx + 1,
                Flags { in_expression: false, ..f },
            )
        } else if f.in_chevron_link && chr == '>' {
            let inner = on.substring_char(last, last + idx);
            (
                Some(MarkdownTextElement::Link {
                    on: crate::elements::RawText(inner),
                    to: inner,
                }),
                last + idx + 1,
                Flags { in_chevron_link: false, ..f },
            )
        } else if f.in_tag && crate::text::is_space_char(chr) {
            (
                Some(MarkdownTextElement::Tag(on.substring_char(last, last + idx))),
                last + idx + 1,
                Flags { in_tag: false, ..f },
            )
        } else {
            trigger_step(on, n, last, f, idx, link_end, depth)
        }
    }
}

/// The open link or media capture: track bracket depth, find the label's
/// closing `]`, then the target in parentheses (or its absence).
#[verifier::rlimit(100)]
fn capture_step<'a>(
    on: &'a str,
    n: usize,
    last: usize,
    f: Flags,
    idx: usize,
    link_end: Option<usize>,
    depth: usize,
) -> (r: (Option<MarkdownTextElement<'a>>, usize, Flags))
    requires
        n == on@.len(),
        last + idx < n,
        link_end matches Some(l) ==> l < idx,
        depth <= idx,
        f.in_link || f.in_media,
    ensures
        ({
            let rr = tok_scan(on@, f.state(last as int), idx as int, opt_int(link_end),
                depth as int);
            &&& tok_opt_view(r.0) == rr.0
            &&& r.2.state(r.1 as int) == rr.1
            &&& r.1 <= n
        }),
    decreases n - last, n - last - idx, 1int,
{
    proof {
        reveal_strlit("");
        assert(""@ =~= Seq::<char>::empty());
    }
    {
        let chr = on.get_char(last + idx);
        {
            match link_end {
                Some(lte) => {
                    if idx == lte + 1 && chr != '(' {
                        if f.in_link {
                            (
                                Some(MarkdownTextElement::Link {
                                    on: crate::elements::RawText(
                                        on.substring_char(last, last + lte),
                                    ),
                                    to: "",
                                }),
                                last + idx,
                                Flags { in_link: false, ..f },
                            )
                        } else {
                            // An unterminated media label degrades like a bare
                            // link: the alt text with an empty source, and the
                            // unmatched character is re-examined.
                            (
                                Some(MarkdownTextElement::Media {
                                    alt: on.substring_char(last, last + lte),
                                    source: "",
                                }),
                                last + idx,
                                Flags { in_media: false, ..f },
                            )
                        }
                    } else if idx != lte + 1 && chr == ')' {
                        let on_part = on.substring_char(last, last + lte);
                        let to_part = on.substring_char(last + lte + 2, last + idx);
                        if f.in_link {
                            (
                                Some(MarkdownTextElement::Link {
                                    on: crate::elements::RawText(on_part),
                                    to: to_part,
                                }),
                                last + idx + 1,
                                Flags { in_link: false, ..f },
                            )
                        } else {
                            (
                                Some(MarkdownTextElement::Media {
                                    alt: on_part,
                                    source: to_part,
                                }),
                                last + idx + 1,
                                Flags { in_media: false, ..f },
                            )
                        }
                    } else {
                        scan_step(on, n, last, f, idx + 1, link_end, depth)
                    }
                },
                None => {
                    if chr == ']' {
                        if depth > 0 {
                            scan_step(on, n, last, f, idx + 1, None, depth - 1)
                        } else {
                            scan_step(on, n, last, f, idx + 1, Some(idx), depth)
                        }
                    } else if chr == '[' {
                        scan_step(on, n, last, f, idx + 1, None, depth + 1)
                    } else {
                        scan_step(on, n, last, f, idx + 1, None, depth)
                    }
                },
            }
        }
    }
}

/// The trigger half of the forward scan: the character at `idx` is not a
/// closing delimiter of any open decoration, so examine it as a possible
/// opening marker.
#[verifier::rlimit(100)]
fn trigger_step<'a>(
    on: &'a str,
    n: usize,
    last: usize,
    f: Flags,
    idx: usize,
    link_end: Option<usize>,
    depth: usize,
) -> (r: (Option<MarkdownTextElement<'a>>, usize, Flags))
    requires
        n == on@.len(),
        last + idx < n,
        link_end matches Some(l) ==> l < idx,
        depth <= idx,
        !f.in_link && !f.in_media && !f.in_code,
        !(f.in_latex && on@[last + idx] == '$'),
        !(f.in_emoji && on@[last + idx] == ':'),
        !(f.in_expression && on@[last + idx] == '}'),
        !(f.in_chevron_link && on@[last + idx] == '>'),
        !(f.in_tag && is_tag_end(on@[last + idx])),
    ensures
        ({
            let rr = tok_scan(on@, f.state(last as int), idx as int, opt_int(link_end),
                depth as int);
            &&& tok_opt_view(r.0) == rr.0
            &&& r.2.state(r.1 as int) == rr.1
            &&& r.1 <= n
        }),
    decreases n - last, n - last - idx, 1int,
{
    {
        let chr = on.get_char(last + idx);
        if chr == '`' {
            yield_step(on, n, last, idx, last + idx + 1, Flags { in_code: true, ..f })
        } else if chr == '$' {
            yield_step(on, n, last, idx, last + idx + 1, Flags { in_latex: true, ..f })
        } else if chr == '{' {
            yield_step(on, n, last, idx, last + idx + 1, Flags { in_expression: true, ..f })
        } else if chr == ':' && last + idx + 1 < n && is_alnum_char(on.get_char(last + idx + 1))
        {
            yield_step(on, n, last, idx, last + idx + 1, Flags { in_emoji: true, ..f })
        } else if chr == '#' {
            yield_step(on, n, last, idx, last + idx + 1, Flags { in_tag: true, ..f })
        } else {
            trigger_step_late(on, n, last, f, idx, link_end, depth)
        }
    }
}

/// The tail of the trigger chain: chevron autolinks, media, links and the
/// emphasis toggles, reached when no earlier trigger matched.
#[verifier::rlimit(100)]
fn trigger_step_late<'a>(
    on: &'a str,
    n: usize,
    last: usize,
    f: Flags,
    idx: usize,
    link_end: Option<usize>,
    depth: usize,
) -> (r: (Option<MarkdownTextElement<'a>>, usize, Flags))
    requires
        n == on@.len(),
        last + idx < n,
        link_end matches Some(l) ==> l < idx,
        depth <= idx,
        !f.in_link && !f.in_media && !f.in_code,
        !(f.in_latex && on@[last + idx] == '$'),
        !(f.in_emoji && on@[last + idx] == ':'),
        !(f.in_expression && on@[last + idx] == '}'),
        !(f.in_chevron_link && on@[last + idx] == '>'),
        !(f.in_tag && is_tag_end(on@[last + idx])),
        on@[last + idx] != '`',
        on@[last + idx] != '$',
        on@[last + idx] != '{',
        !(on@[last + idx] == ':' && last + idx + 1 < n && is_alnum(on@[last + idx + 1])),
        on@[last + idx] != '#',
    ensures
        ({
            let rr = tok_scan(on@, f.state(last as int), idx as int, opt_int(link_end),
                depth as int);
            &&& tok_opt_view(r.0) == rr.0
            &&& r.2.state(r.1 as int) == rr.1
            &&& r.1 <= n
        }),
    decreases n - last, n - last - idx, 0int,
{
    {
        let chr = on.get_char(last + idx);
        if chr == '<' && last + idx + 1 < n && is_alnum_char(on.get_char(last + idx + 1))
        {
            yield_step(on, n, last, idx, last + idx + 1, Flags { in_chevron_link: true, ..f })
        } else if chr == '!' && last + idx + 1 < n && on.get_char(last + idx + 1) == '[' {
            yield_step(on, n, last, idx, last + idx + 2, Flags { in_media: true, ..f })
        } else if chr == '[' {
            yield_step(on, n, last, idx, last + idx + 1, Flags { in_link: true, ..f })
        } else if chr == '*' || chr == '_' {
            if last + idx + 1 < n && on.get_char(last + idx + 1) == chr {
                if f.in_bold {
                    (
                        Some(MarkdownTextElement::Bold(on.substring_char(last, last + idx))),
                        last + idx + 2,
                        Flags { in_bold: false, ..f },
                    )
                } else {
                    yield_step(on, n, last, idx, last + idx + 2, Flags { in_bold: true, ..f })
                }
            } else {
                if f.in_italic {
                    (
                        Some(MarkdownTextElement::Italic(
                            on.substring_char(last, last + idx),
                        )),
                        last + idx + 1,
                        Flags { in_italic: false, ..f },
                    )
                } else {
                    yield_step(on, n, last, idx, last + idx + 1, Flags {
                        in_italic: true,
                        ..f
                    })
                }
            }
        } else {
            scan_step(on, n, last, f, idx + 1, link_end, depth)
        }
    }
}

/// The executable flush at a trigger; performs exactly what `tok_yield`
/// says.
fn yield_step<'a>(
    on: &'a str,
    n: usize,
    last: usize,
    idx: usize,
    last2: usize,
    f2: Flags,
) -> (r: (Option<MarkdownTextElement<'a>>, usize, Flags))
    requires
        n == on@.len(),
        last + idx <= n,
        last < last2 <= n,
    ensures
        ({
            let rr = tok_yield(on@, last as int, idx as int,
                f2.state(last2 as int));
            &&& tok_opt_view(r.0) == rr.0
            &&& r.2.state(r.1 as int) == rr.1
            &&& r.1 <= n
        }),
    decreases n - last2, n - last2 + 1, 0int,
{
    if idx > 0 {
        (
            Some(MarkdownTextElement::Plain(on.substring_char(last, last + idx))),
            last2,
            f2,
        )
    } else {
        scan_step(on, n, last2, f2, 0, None, 0)
    }
}

/// A forward-only cursor over the decorated spans of one text.  It is
/// consumed once; a fresh iterator over the same span is the only form of
/// restart.
pub struct PartsIterator<'a> {
    on: &'a str,
    last: usize,
    in_tag: bool,
    pub in_bold: bool,
    pub in_italic: bool,
    in_code: bool,
    in_latex: bool,
    in_emoji: bool,
    in_link: bool,
    in_chevron_link: bool,
    in_media: bool,
    in_expression: bool,
}

impl<'a> PartsIterator<'a> {
    /// The text this iterator walks.
    pub closed spec fn text(&self) -> Seq<char> {
        self.on@
    }

    /// The tokenizer state this iterator is in.
    pub closed spec fn st(&self) -> TokState {
        TokState {
            last: self.last as int,
            in_tag: self.in_tag,
            in_bold: self.in_bold,
            in_italic: self.in_italic,
            in_code: self.in_code,
            in_latex: self.in_latex,
            in_emoji: self.in_emoji,
            in_link: self.in_link,
            in_chevron_link: self.in_chevron_link,
            in_media: self.in_media,
            in_expression: self.in_expression,
        }
    }

    /// A fresh tokenizer over `on`.
    pub fn new(on: &'a str) -> (r: Self)
        ensures
            r.text() == on@,
            r.st() == tok_init(),
    {
        PartsIterator {
            on,
            last: 0,
            in_tag: false,
            in_bold: false,
            in_italic: false,
            in_emoji: false,
            in_code: false,
            in_latex: false,
            in_link: false,
            in_chevron_link: false,
            in_media: false,
            in_expression: false,
        }
    }

    /// The next decorated span, or `None` once the text is exhausted: one
    /// [`tok_next`] step.
    pub fn next(&mut self) -> (r: Option<MarkdownTextElement<'a>>)
        ensures
            final(self).text() == old(self).text(),
            tok_opt_view(r) == tok_next(old(self).text(), old(self).st()).0,
            final(self).st() == tok_next(old(self).text(), old(self).st()).1,
    {
        let n = self.on.unicode_len();
        if self.last >= n {
            return None;
        }
        let f = Flags {
            in_tag: self.in_tag,
            in_bold: self.in_bold,
            in_italic: self.in_italic,
            in_code: self.in_code,
            in_latex: self.in_latex,
            in_emoji: self.in_emoji,
            in_link: self.in_link,
            in_chevron_link: self.in_chevron_link,
            in_media: self.in_media,
            in_expression: self.in_expression,
        };
        let (r, last2, f2) = scan_step(self.on, n, self.last, f, 0, None, 0);
        self.last = last2;
        self.in_tag = f2.in_tag;
        self.in_bold = f2.in_bold;
        self.in_italic = f2.in_italic;
        self.in_code = f2.in_code;
        self.in_latex = f2.in_latex;
        self.in_emoji = f2.in_emoji;
        self.in_link = f2.in_link;
        self.in_chevron_link = f2.in_chevron_link;
        self.in_media = f2.in_media;
        self.in_expression = f2.in_expression;
        r
    }

    /// All the spans left in this iterator, in order; afterwards the
    /// iterator is exhausted.
    pub fn remaining_parts(&mut self) -> (r: Vec<MarkdownTextElement<'a>>)
        ensures
            final(self).text() == old(self).text(),
            parts_view(r@) == tokenize_from(old(self).text(), old(self).st()),
    {
        let ghost text = self.text();
        let ghost st0 = self.st();
        let mut out: Vec<MarkdownTextElement<'a>> = Vec::new();
        proof {
            assert(parts_view(out@) + tokenize_from(text, self.st())
                =~= tokenize_from(text, st0));
        }
        loop
            invariant
                self.text() == text,
                0 <= self.st().last,
                parts_view(out@) + tokenize_from(text, self.st())
                    == tokenize_from(text, st0),
            ensures
                self.text() == text,
                parts_view(out@) == tokenize_from(text, st0),
            decreases text.len() - self.st().last + 1,
        {
            let ghost st_before = self.st();
            proof {
                lemma_tok_next(text, st_before);
            }
            match self.next() {
                Some(t) => {
                    out.push(t);
                    proof {
                        assert(parts_view(out@) + tokenize_from(text, self.st())
                            =~= tokenize_from(text, st0));
                    }
                },
                None => {
                    proof {
                        assert(tokenize_from(text, self.st()) =~= Seq::empty());
                        assert(parts_view(out@) =~= tokenize_from(text, st0));
                    }
                    break;
                },
            }
        }
        out
    }
}

impl<'a> MarkdownTextElement<'a> {
    /// This span's text without its decoration: the content of the wrapped
    /// decorations, nothing for expressions, media and links.
    pub fn no_decoration(&self) -> (r: &'a str)
        ensures
            r@ == strip_one(self@),
    {
        proof {
            reveal_strlit("");
            assert(""@ =~= Seq::<char>::empty());
        }
        match self {
            MarkdownTextElement::Plain(t) => t,
            MarkdownTextElement::Italic(t) => t,
            MarkdownTextElement::Bold(t) => t,
            MarkdownTextElement::BoldAndItalic(t) => t,
            MarkdownTextElement::Code(t) => t,
            MarkdownTextElement::StrikeThrough(t) => t,
            MarkdownTextElement::Emoji(t) => t,
            MarkdownTextElement::Latex(t) => t,
            MarkdownTextElement::Highlight(t) => t,
            MarkdownTextElement::Superscript(t) => t,
            MarkdownTextElement::Subscript(t) => t,
            MarkdownTextElement::Tag(t) => t,
            MarkdownTextElement::Expression(_) => "",
            MarkdownTextElement::Link { .. } => "",
            MarkdownTextElement::Media { .. } => "",
        }
    }
}

impl<'a> RawText<'a> {
    /// A fresh tokenizer over this text.
    pub fn parts(&self) -> (r: PartsIterator<'a>)
        ensures
            r.text() == self@,
            r.st() == tok_init(),
    {
        PartsIterator::new(self.0)
    }

    /// This text with every decoration stripped: the concatenated
    /// undecorated content of its inline spans.
    pub fn no_decoration(&self) -> (r: String)
        ensures
            r@ == strip_marks(self@),
    {
        let ghost text = self.0@;
        let mut it = PartsIterator::new(self.0);
        let mut s = String::new();
        proof {
            assert(s@ + strip_list(tokenize_from(text, it.st())) =~= strip_marks(text));
        }
        loop
            invariant
                it.text() == text,
                0 <= it.st().last,
                s@ + strip_list(tokenize_from(text, it.st())) == strip_marks(text),
            ensures
                s@ == strip_marks(text),
            decreases text.len() - it.st().last + 1,
        {
            let ghost st_before = it.st();
            proof {
                lemma_tok_next(text, st_before);
            }
            match it.next() {
                Some(p) => {
                    let ghost rest = tokenize_from(text, it.st());
                    s.append(p.no_decoration());
                    proof {
                        assert(tokenize_from(text, st_before) == seq![p@] + rest);
                        assert((seq![p@] + rest)[0] == p@);
                        assert((seq![p@] + rest).drop_first() =~= rest);
                        assert(strip_list(seq![p@] + rest) == strip_one(p@)
                            + strip_list(rest));
                        assert(s@ + strip_list(rest) =~= strip_marks(text));
                    }
                },
                None => {
                    proof {
                        assert(tokenize_from(text, it.st()) =~= Seq::empty());
                        assert(s@ =~= strip_marks(text));
                    }
                    break;
                },
            }
        }
        s
    }
}


/// The label a link or media span carries is strictly shorter than the
/// region the scan consumed for it: its opening bracket was consumed
/// before the label began.
proof fn lemma_tok_scan_label_bound(
    s: Seq<char>,
    st: TokState,
    idx: int,
    link_end: Option<int>,
    depth: int,
)
    requires
        0 <= st.last,
        0 <= idx,
        st.last + idx <= s.len(),
        link_end matches Some(l) ==> 0 <= l < idx,
    ensures
        ({
            let r = tok_scan(s, st, idx, link_end, depth);
            match r.0 {
                Some(TextElemModel::Link { on, .. }) => on.len() + st.last < r.1.last,
                Some(TextElemModel::Media { alt, .. }) => alt.len() + st.last < r.1.last,
                _ => true,
            }
        }),
    decreases s.len() - st.last, s.len() - st.last - idx, 1int,
{
    if st.last + idx >= s.len() {
    } else {
        let chr = s[st.last + idx];
        if st.in_link || st.in_media {
            match link_end {
                Some(lte) => {
                    if idx == lte + 1 && chr != '(' {
                    } else if idx != lte + 1 && chr == ')' {
                    } else {
                        lemma_tok_scan_label_bound(s, st, idx + 1, link_end, depth);
                    }
                },
                None => {
                    if chr == ']' {
                        if depth > 0 {
                            lemma_tok_scan_label_bound(s, st, idx + 1, None, depth - 1);
                        } else {
                            lemma_tok_scan_label_bound(s, st, idx + 1, Some(idx), depth);
                        }
                    } else if chr == '[' {
                        lemma_tok_scan_label_bound(s, st, idx + 1, None, depth + 1);
                    } else {
                        lemma_tok_scan_label_bound(s, st, idx + 1, None, depth);
                    }
                },
            }
        } else if st.in_code {
            if chr != '`' {
                lemma_tok_scan_label_bound(s, st, idx + 1, link_end, depth);
            }
        } else if (st.in_latex && chr == '$') || (st.in_emoji && chr == ':')
            || (st.in_expression && chr == '}') || (st.in_chevron_link && chr == '>')
            || (st.in_tag && is_tag_end(chr)) {
        } else if chr == '`' {
            lemma_tok_yield_label_bound(s, st.last, idx, TokState {
                in_code: true,
                ..with_last(st, st.last + idx + 1)
            });
        } else if chr == '$' {
            lemma_tok_yield_label_bound(s, st.last, idx, TokState {
                in_latex: true,
                ..with_last(st, st.last + idx + 1)
            });
        } else if chr == '{' {
            lemma_tok_yield_label_bound(s, st.last, idx, TokState {
                in_expression: true,
                ..with_last(st, st.last + idx + 1)
            });
        } else if chr == ':' && st.last + idx + 1 < s.len() && is_alnum(s[st.last + idx + 1]) {
            lemma_tok_yield_label_bound(s, st.last, idx, TokState {
                in_emoji: true,
                ..with_last(st, st.last + idx + 1)
            });
        } else if chr == '#' {
            lemma_tok_yield_label_bound(s, st.last, idx, TokState {
                in_tag: true,
                ..with_last(st, st.last + idx + 1)
            });
        } else if chr == '<' && st.last + idx + 1 < s.len() && is_alnum(s[st.last + idx + 1]) {
            lemma_tok_yield_label_bound(s, st.last, idx, TokState {
                in_chevron_link: true,
                ..with_last(st, st.last + idx + 1)
            });
        } else if chr == '!' && st.last + idx + 1 < s.len() && s[st.last + idx + 1] == '[' {
            lemma_tok_yield_label_bound(s, st.last, idx, TokState {
                in_media: true,
                ..with_last(st, st.last + idx + 2)
            });
        } else if chr == '[' {
            lemma_tok_yield_label_bound(s, st.last, idx, TokState {
                in_link: true,
                ..with_last(st, st.last + idx + 1)
            });
        } else if chr == '*' || chr == '_' {
            if st.last + idx + 1 < s.len() && s[st.last + idx + 1] == chr {
                if !st.in_bold {
                    lemma_tok_yield_label_bound(s, st.last, idx, TokState {
                        in_bold: true,
                        ..with_last(st, st.last + idx + 2)
                    });
                }
            } else {
                if !st.in_italic {
                    lemma_tok_yield_label_bound(s, st.last, idx, TokState {
                        in_italic: !st.in_italic,
                        ..with_last(st, st.last + idx + 1)
                    });
                }
            }
        } else {
            lemma_tok_scan_label_bound(s, st, idx + 1, link_end, depth);
        }
    }
}

/// The flush helper's label bound, through its restart.
proof fn lemma_tok_yield_label_bound(s: Seq<char>, start: int, idx: int, st2: TokState)
    requires
        0 <= start,
        0 <= idx,
        start + idx <= st2.last,
        st2.last <= s.len(),
    ensures
        ({
            let r = tok_yield(s, start, idx, st2);
            match r.0 {
                Some(TextElemModel::Link { on, .. }) => on.len() + start < r.1.last,
                Some(TextElemModel::Media { alt, .. }) => alt.len() + start < r.1.last,
                _ => true,
            }
        }),
    decreases s.len() - st2.last, s.len() - st2.last + 1, 0int,
{
    if idx > 0 {
    } else {
        lemma_tok_scan_label_bound(s, st2, 0, None, 0);
    }
}

/// The undecorated text one span contributes when link labels are
/// flattened recursively: a link contributes the flattening of its own
/// label; the guard on the label's length always holds of the spans the
/// tokenizer yields.
pub open spec fn flatten_marks_list(ts: Seq<TextElemModel>, b: int) -> Seq<char>
    decreases b, 0int, ts.len(),
{
    if b < 0 || ts.len() == 0 {
        Seq::empty()
    } else {
        let head = match ts[0] {
            TextElemModel::Link { on, .. } => if on.len() < b {
                flatten_marks(on)
            } else {
                Seq::empty()
            },
            TextElemModel::Media { .. } => Seq::empty(),
            TextElemModel::Expression { .. } => Seq::empty(),
            t => strip_one(t),
        };
        head + flatten_marks_list(ts.drop_first(), b)
    }
}

/// The undecorated text of a span with link labels flattened recursively.
pub open spec fn flatten_marks(s: Seq<char>) -> Seq<char>
    decreases s.len(), 1int, 0int,
{
    flatten_marks_list(tokenize(s), s.len() as int)
}

impl<'a> RawText<'a> {
    /// This text with every decoration stripped, descending into link
    /// labels: a link contributes its label's own undecorated text.
    pub fn no_modifiers(&self) -> (r: String)
        ensures
            r@ == flatten_marks(self@),
        decreases self.0@.len(),
    {
        let ghost text = self.0@;
        let mut it = PartsIterator::new(self.0);
        let mut s = String::new();
        proof {
            assert(s@ + flatten_marks_list(tokenize_from(text, it.st()), text.len() as int)
                =~= flatten_marks(text));
        }
        loop
            invariant
                self.0@ == text,
                it.text() == text,
                0 <= it.st().last,
                s@ + flatten_marks_list(tokenize_from(text, it.st()), text.len() as int)
                    == flatten_marks(text),
            ensures
                s@ == flatten_marks(text),
            decreases text.len() - it.st().last + 1,
        {
            let ghost st_before = it.st();
            proof {
                lemma_tok_next(text, st_before);
                if st_before.last < text.len() {
                    lemma_tok_scan_label_bound(text, st_before, 0, None, 0);
                    lemma_tok_scan_advances(text, st_before, 0, None, 0);
                }
            }
            match it.next() {
                Some(p) => {
                    let ghost rest = tokenize_from(text, it.st());
                    let ghost head_list = seq![p@] + rest;
                    proof {
                        assert(tokenize_from(text, st_before) == head_list);
                        assert(head_list[0] == p@);
                        assert(head_list.drop_first() =~= rest);
                    }
                    match p {
                        MarkdownTextElement::Link { on, .. } => {
                            proof {
                                assert(on@.len() < text.len());
                            }
                            let inner = on.no_modifiers();
                            s.append(inner.as_str());
                        },
                        MarkdownTextElement::Media { .. } => {},
                        MarkdownTextElement::Expression(_) => {},
                        other => {
                            s.append(other.no_decoration());
                        },
                    }
                    proof {
                        assert(s@ + flatten_marks_list(rest, text.len() as int)
                            =~= flatten_marks(text));
                    }
                },
                None => {
                    proof {
                        assert(tokenize_from(text, it.st())
                            =~= Seq::<TextElemModel>::empty());
                        assert(s@ =~= flatten_marks(text));
                    }
                    break;
                },
            }
        }
        s
    }
}

} // verus!
