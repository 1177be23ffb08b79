//! The lexical-analysis consumer: for every element that carries text it
//! delivers the raw paragraph text, the sentences (split on `.`), and the
//! words (decoration stripped, split on whitespace and punctuation, and
//! narrowed of a fixed set of leading and trailing punctuation).

use vstd::prelude::*;
use vstd::string::StrSliceExecFns;

use crate::elements::{MarkdownElement, RawText};
use crate::inline::{strip_one, tokenize, PartsIterator};
use crate::model::{ElemModel, TextElemModel};
use crate::scan::{elems_view, parse, scan};
use crate::text::{find_from, lemma_find_from, trim_s, trim_str};

verus! {

/// The characters a text is split on to find its words.
pub open spec fn is_word_sep(c: char) -> bool {
    c == ' ' || c == ',' || c == '.' || c == '!' || c == '?'
}

/// Index of the first word separator in `s` at or after `pos`, or the
/// length when there is none.
pub open spec fn find_sep_from(s: Seq<char>, pos: int) -> int
    decreases s.len() - pos,
{
    if pos < 0 || pos >= s.len() {
        s.len() as int
    } else if is_word_sep(s[pos]) {
        pos
    } else {
        find_sep_from(s, pos + 1)
    }
}

/// The separator found by `find_sep_from` really is the first one.
proof fn lemma_find_sep_from(s: Seq<char>, pos: int)
    requires
        0 <= pos <= s.len(),
    ensures
        pos <= find_sep_from(s, pos) <= s.len(),
        find_sep_from(s, pos) < s.len() ==> is_word_sep(s[find_sep_from(s, pos)]),
        forall|i: int| pos <= i < find_sep_from(s, pos) ==> !is_word_sep(s[i]),
    decreases s.len() - pos,
{
    if pos < s.len() && !is_word_sep(s[pos]) {
        lemma_find_sep_from(s, pos + 1);
    }
}

/// The pieces of `s` from `pos` on, split at word separators, empty pieces
/// kept.
pub open spec fn split_sep_from(s: Seq<char>, pos: int) -> Seq<Seq<char>>
    decreases s.len() - pos + 1,
    via split_sep_from_decreases
{
    if pos < 0 || pos > s.len() {
        Seq::empty()
    } else {
        let e = find_sep_from(s, pos);
        if e >= s.len() {
            seq![s.subrange(pos, s.len() as int)]
        } else {
            seq![s.subrange(pos, e)] + split_sep_from(s, e + 1)
        }
    }
}

#[via_fn]
proof fn split_sep_from_decreases(s: Seq<char>, pos: int) {
    if 0 <= pos <= s.len() {
        lemma_find_sep_from(s, pos);
    }
}

/// The pieces of `s` from `pos` on, split on `c`, empty pieces kept.
pub open spec fn split_on_from(s: Seq<char>, pos: int, c: char) -> Seq<Seq<char>>
    decreases s.len() - pos + 1,
    via split_on_from_decreases
{
    if pos < 0 || pos > s.len() {
        Seq::empty()
    } else {
        let e = find_from(s, pos, c);
        if e >= s.len() {
            seq![s.subrange(pos, s.len() as int)]
        } else {
            seq![s.subrange(pos, e)] + split_on_from(s, e + 1, c)
        }
    }
}

#[via_fn]
proof fn split_on_from_decreases(s: Seq<char>, pos: int, c: char) {
    if 0 <= pos <= s.len() {
        lemma_find_from(s, pos, c);
    }
}

/// A word narrowed of fixed punctuation: trimmed, with one leading `(` and
/// one trailing `.`, `,` and `)` stripped, in that order.
pub open spec fn narrow_word(w: Seq<char>) -> Seq<char> {
    let w1 = trim_s(w);
    let w2 = if w1.len() > 0 && w1[0] == '(' {
        w1.subrange(1, w1.len() as int)
    } else {
        w1
    };
    let w3 = if w2.len() > 0 && w2[w2.len() - 1] == '.' {
        w2.subrange(0, w2.len() - 1)
    } else {
        w2
    };
    let w4 = if w3.len() > 0 && w3[w3.len() - 1] == ',' {
        w3.subrange(0, w3.len() - 1)
    } else {
        w3
    };
    if w4.len() > 0 && w4[w4.len() - 1] == ')' {
        w4.subrange(0, w4.len() - 1)
    } else {
        w4
    }
}

/// The narrowed, non-empty words of a list of raw pieces.
pub open spec fn narrowed_words(ws: Seq<Seq<char>>) -> Seq<Seq<char>>
    decreases ws.len(),
{
    if ws.len() == 0 {
        Seq::empty()
    } else {
        let n = narrow_word(ws[0]);
        (if n.len() > 0 {
            seq![n]
        } else {
            Seq::empty()
        }) + narrowed_words(ws.drop_first())
    }
}

/// The words of a list of inline spans: each span's undecorated text,
/// split at separators and narrowed.
pub open spec fn words_of_parts(ts: Seq<TextElemModel>) -> Seq<Seq<char>>
    decreases ts.len(),
{
    if ts.len() == 0 {
        Seq::empty()
    } else {
        narrowed_words(split_sep_from(strip_one(ts[0]), 0)) + words_of_parts(
            ts.drop_first(),
        )
    }
}

/// The words of a text span.
pub open spec fn words_of(text: Seq<char>) -> Seq<Seq<char>> {
    words_of_parts(tokenize(text))
}

/// Model of one lexical event.
pub enum LexicalEventModel {
    Paragraph { text: Seq<char> },
    Sentence { text: Seq<char> },
    Word { text: Seq<char> },
}

/// The events one element produces: its paragraph text when it is a
/// paragraph or quote, then its sentences, then its words; an element
/// without text produces nothing.
pub open spec fn events_of_elem(e: ElemModel) -> Seq<LexicalEventModel> {
    let para = match e {
        ElemModel::Paragraph { text } => seq![LexicalEventModel::Paragraph { text }],
        ElemModel::Quote { text } => seq![LexicalEventModel::Paragraph { text }],
        _ => Seq::empty(),
    };
    let txt = match e {
        ElemModel::Heading { text, .. } => Some(text),
        ElemModel::Paragraph { text } => Some(text),
        ElemModel::ListItem { text, .. } => Some(text),
        ElemModel::Quote { text } => Some(text),
        _ => None::<Seq<char>>,
    };
    match txt {
        Some(text) => para + split_on_from(text, 0, '.').map_values(
            |p: Seq<char>| LexicalEventModel::Sentence { text: p },
        ) + words_of(text).map_values(|w: Seq<char>| LexicalEventModel::Word { text: w }),
        None => para,
    }
}

/// The events a whole element stream produces, in order.
pub open spec fn events_of(es: Seq<ElemModel>) -> Seq<LexicalEventModel>
    decreases es.len(),
{
    if es.len() == 0 {
        Seq::empty()
    } else {
        events_of(es.drop_last()) + events_of_elem(es.last())
    }
}

/// One lexical event: the raw text of a paragraph-like element, one
/// sentence, or one word.  Sentences and paragraphs still carry their
/// decoration; words do not.
#[derive(Debug, Copy, Clone, PartialEq, Eq)]
pub enum LexicalEvent<'a> {
    Paragraph(&'a str),
    Sentence(&'a str),
    Word(&'a str),
}

impl<'a> View for LexicalEvent<'a> {
    type V = LexicalEventModel;

    open spec fn view(&self) -> LexicalEventModel {
        match self {
            LexicalEvent::Paragraph(t) => LexicalEventModel::Paragraph { text: t@ },
            LexicalEvent::Sentence(t) => LexicalEventModel::Sentence { text: t@ },
            LexicalEvent::Word(t) => LexicalEventModel::Word { text: t@ },
        }
    }
}

/// The models of a list of events.
pub open spec fn events_view<'a>(v: Seq<LexicalEvent<'a>>) -> Seq<LexicalEventModel> {
    v.map_values(|e: LexicalEvent<'a>| e@)
}

/// First word separator in `s` at or after `from`.
fn find_sep_char(s: &str, n: usize, from: usize) -> (r: usize)
    requires
        n == s@.len(),
        from <= n,
    ensures
        r == find_sep_from(s@, from as int),
        from <= r <= n,
{
    proof {
        lemma_find_sep_from(s@, from as int);
    }
    let mut i: usize = from;
    while i < n
        invariant
            from <= i <= n,
            n == s@.len(),
            forall|j: int| from <= j < i ==> !is_word_sep(s@[j]),
        decreases n - i,
    {
        let c = s.get_char(i);
        if c == ' ' || c == ',' || c == '.' || c == '!' || c == '?' {
            proof {
                lemma_find_sep_from(s@, from as int);
            }
            return i;
        }
        i = i + 1;
    }
    proof {
        lemma_find_sep_from(s@, from as int);
    }
    n
}

/// The pieces of `s`, split at word separators.
fn split_seps<'a>(s: &'a str) -> (r: Vec<&'a str>)
    ensures
        r@.map_values(|p: &str| p@) == split_sep_from(s@, 0),
{
    let n = s.unicode_len();
    let ghost sq = s@;
    let mut out: Vec<&'a str> = Vec::new();
    let mut pos: usize = 0;
    loop
        invariant_except_break
            out@.map_values(|p: &str| p@) + split_sep_from(sq, pos as int)
                == split_sep_from(sq, 0),
        invariant
            0 <= pos <= n,
            n == sq.len(),
            s@ == sq,
        ensures
            out@.map_values(|p: &str| p@) == split_sep_from(sq, 0),
        decreases n - pos + 1,
    {
        proof {
            lemma_find_sep_from(sq, pos as int);
        }
        let e = find_sep_char(s, n, pos);
        if e >= n {
            out.push(s.substring_char(pos, n));
            proof {
                assert(split_sep_from(sq, n + 1) =~= Seq::<Seq<char>>::empty());
                assert(out@.map_values(|p: &str| p@) =~= split_sep_from(sq, 0));
            }
            break;
        } else {
            out.push(s.substring_char(pos, e));
            proof {
                assert(out@.map_values(|p: &str| p@) + split_sep_from(sq, e + 1)
                    =~= split_sep_from(sq, 0));
            }
            pos = e + 1;
        }
    }
    out
}

/// The pieces of `s`, split on `c`.
fn split_on<'a>(s: &'a str, c: char) -> (r: Vec<&'a str>)
    ensures
        r@.map_values(|p: &str| p@) == split_on_from(s@, 0, c),
{
    let n = s.unicode_len();
    let ghost sq = s@;
    let mut out: Vec<&'a str> = Vec::new();
    let mut pos: usize = 0;
    loop
        invariant_except_break
            out@.map_values(|p: &str| p@) + split_on_from(sq, pos as int, c)
                == split_on_from(sq, 0, c),
        invariant
            0 <= pos <= n,
            n == sq.len(),
            s@ == sq,
        ensures
            out@.map_values(|p: &str| p@) == split_on_from(sq, 0, c),
        decreases n - pos + 1,
    {
        proof {
            lemma_find_from(sq, pos as int, c);
        }
        let e = crate::text::find_char_from(s, n, pos, c);
        if e >= n {
            out.push(s.substring_char(pos, n));
            proof {
                assert(split_on_from(sq, n + 1, c) =~= Seq::<Seq<char>>::empty());
                assert(out@.map_values(|p: &str| p@) =~= split_on_from(sq, 0, c));
            }
            break;
        } else {
            out.push(s.substring_char(pos, e));
            proof {
                assert(out@.map_values(|p: &str| p@) + split_on_from(sq, e + 1, c)
                    =~= split_on_from(sq, 0, c));
            }
            pos = e + 1;
        }
    }
    out
}

/// `w` narrowed of fixed punctuation.
fn narrow_word_str<'a>(w: &'a str) -> (r: &'a str)
    ensures
        r@ == narrow_word(w@),
{
    let w1 = trim_str(w);
    let n1 = w1.unicode_len();
    let w2 = if n1 > 0 && w1.get_char(0) == '(' {
        w1.substring_char(1, n1)
    } else {
        w1
    };
    let n2 = w2.unicode_len();
    let w3 = if n2 > 0 && w2.get_char(n2 - 1) == '.' {
        w2.substring_char(0, n2 - 1)
    } else {
        w2
    };
    let n3 = w3.unicode_len();
    let w4 = if n3 > 0 && w3.get_char(n3 - 1) == ',' {
        w3.substring_char(0, n3 - 1)
    } else {
        w3
    };
    let n4 = w4.unicode_len();
    if n4 > 0 && w4.get_char(n4 - 1) == ')' {
        w4.substring_char(0, n4 - 1)
    } else {
        w4
    }
}

/// The lexical events of one element, in the order they are reported.
pub fn element_events<'a>(e: &MarkdownElement<'a>) -> (r: Vec<LexicalEvent<'a>>)
    ensures
        events_view(r@) == events_of_elem(e@),
{
    let mut out: Vec<LexicalEvent<'a>> = Vec::new();
    if let Some(p) = e.inner_paragraph_raw() {
        out.push(LexicalEvent::Paragraph(p));
    }
    let text: Option<RawText<'a>> = e.parts_like();
    match text {
        Some(t) => {
            let ghost para_done = events_view(out@);
            let sentences = split_on(t.0, '.');
            let ghost sv = split_on_from(t@, 0, '.');
            let mut j: usize = 0;
            while j < sentences.len()
                invariant
                    0 <= j <= sentences@.len(),
                    sentences@.map_values(|p: &str| p@) == sv,
                    sentences@.len() == sv.len(),
                    events_view(out@) == para_done + sv.subrange(0, j as int).map_values(
                        |p: Seq<char>| LexicalEventModel::Sentence { text: p },
                    ),
                decreases sentences@.len() - j,
            {
                proof {
                    assert(sentences@.map_values(|p: &str| p@)[j as int] == sv[j as int]);
                }
                let ghost prior = out@;
                out.push(LexicalEvent::Sentence(sentences[j]));
                proof {
                    assert(events_view(out@) =~= events_view(prior).push(
                        LexicalEventModel::Sentence { text: sv[j as int] },
                    ));
                    assert(sv.subrange(0, j + 1).map_values(
                        |p: Seq<char>| LexicalEventModel::Sentence { text: p },
                    ) =~= sv.subrange(0, j as int).map_values(
                        |p: Seq<char>| LexicalEventModel::Sentence { text: p },
                    ).push(LexicalEventModel::Sentence { text: sv[j as int] }));
                    assert(events_view(out@) =~= para_done + sv.subrange(0, j + 1)
                        .map_values(|p: Seq<char>| LexicalEventModel::Sentence { text: p }));
                }
                j = j + 1;
            }
            proof {
                assert(sv.subrange(0, sv.len() as int) =~= sv);
            }
            let ghost sent_done = events_view(out@);
            let mut it: PartsIterator<'a> = t.parts();
            let parts = it.remaining_parts();
            let ghost pv = crate::inline::parts_view(parts@);
            let mut k: usize = 0;
            while k < parts.len()
                invariant
                    0 <= k <= parts@.len(),
                    crate::inline::parts_view(parts@) == pv,
                    parts@.len() == pv.len(),
                    events_view(out@) == sent_done + words_of_parts(pv.subrange(0, k as int))
                        .map_values(|w: Seq<char>| LexicalEventModel::Word { text: w }),
                decreases parts@.len() - k,
            {
                proof {
                    assert(crate::inline::parts_view(parts@)[k as int] == pv[k as int]);
                }
                let ghost words_done = events_view(out@);
                let stripped = parts[k].no_decoration();
                let pieces = split_seps(stripped);
                let ghost wv = split_sep_from(strip_one(pv[k as int]), 0);
                let mut m: usize = 0;
                while m < pieces.len()
                    invariant
                        0 <= m <= pieces@.len(),
                        pieces@.map_values(|p: &str| p@) == wv,
                        pieces@.len() == wv.len(),
                        events_view(out@) == words_done + narrowed_words(
                            wv.subrange(0, m as int),
                        ).map_values(|w: Seq<char>| LexicalEventModel::Word { text: w }),
                    decreases pieces@.len() - m,
                {
                    proof {
                        assert(pieces@.map_values(|p: &str| p@)[m as int] == wv[m as int]);
                        assert(wv.subrange(0, m + 1).drop_last() =~= wv.subrange(
                            0,
                            m as int,
                        ));
                        lemma_narrowed_words_snoc(wv.subrange(0, m + 1));
                    }
                    let word = narrow_word_str(pieces[m]);
                    if word.unicode_len() > 0 {
                        let ghost prior = out@;
                        out.push(LexicalEvent::Word(word));
                        proof {
                            assert(events_view(out@) =~= events_view(prior).push(
                                LexicalEventModel::Word { text: narrow_word(wv[m as int]) },
                            ));
                            assert(narrowed_words(wv.subrange(0, m + 1)) =~= narrowed_words(
                                wv.subrange(0, m as int),
                            ).push(narrow_word(wv[m as int])));
                            assert(narrowed_words(wv.subrange(0, m + 1)).map_values(
                                |w: Seq<char>| LexicalEventModel::Word { text: w },
                            ) =~= narrowed_words(wv.subrange(0, m as int)).map_values(
                                |w: Seq<char>| LexicalEventModel::Word { text: w },
                            ).push(LexicalEventModel::Word { text: narrow_word(wv[m as int]) }));
                            assert(events_view(out@) =~= words_done + narrowed_words(
                                wv.subrange(0, m + 1),
                            ).map_values(
                                |w: Seq<char>| LexicalEventModel::Word { text: w },
                            ));
                        }
                    } else {
                        proof {
                            assert(events_view(out@) =~= words_done + narrowed_words(
                                wv.subrange(0, m + 1),
                            ).map_values(
                                |w: Seq<char>| LexicalEventModel::Word { text: w },
                            ));
                        }
                    }
                    m = m + 1;
                }
                proof {
                    assert(wv.subrange(0, wv.len() as int) =~= wv);
                    assert(pv.subrange(0, k + 1).drop_last() =~= pv.subrange(0, k as int));
                    lemma_words_of_parts_snoc(pv.subrange(0, k + 1));
                    assert(events_view(out@) =~= sent_done + words_of_parts(
                        pv.subrange(0, k + 1),
                    ).map_values(|w: Seq<char>| LexicalEventModel::Word { text: w }));
                }
                k = k + 1;
            }
            proof {
                assert(pv.subrange(0, pv.len() as int) =~= pv);
                assert(events_view(out@) =~= events_of_elem(e@));
            }
        },
        None => {
            proof {
                assert(events_view(out@) =~= events_of_elem(e@));
            }
        },
    }
    out
}

/// Appending one raw piece extends the narrowed words at the end.
proof fn lemma_narrowed_words_snoc(ws: Seq<Seq<char>>)
    requires
        ws.len() > 0,
    ensures
        ({
            let n = narrow_word(ws.last());
            narrowed_words(ws) == narrowed_words(ws.drop_last()) + (if n.len() > 0 {
                seq![n]
            } else {
                Seq::<Seq<char>>::empty()
            })
        }),
    decreases ws.len(),
{
    let n = narrow_word(ws.last());
    if ws.len() == 1 {
        assert(ws.drop_last() =~= Seq::<Seq<char>>::empty());
        assert(ws.drop_first() =~= Seq::<Seq<char>>::empty());
        assert(narrowed_words(ws) =~= narrowed_words(ws.drop_last()) + (if n.len() > 0 {
            seq![n]
        } else {
            Seq::<Seq<char>>::empty()
        }));
    } else {
        lemma_narrowed_words_snoc(ws.drop_first());
        assert(ws.drop_first().last() == ws.last());
        assert(ws.drop_first().drop_last() =~= ws.drop_last().drop_first());
        assert(ws.drop_last()[0] == ws[0]);
        assert(narrowed_words(ws) =~= narrowed_words(ws.drop_last()) + (if n.len() > 0 {
            seq![n]
        } else {
            Seq::<Seq<char>>::empty()
        }));
    }
}

/// Appending one inline span extends the word list at the end.
proof fn lemma_words_of_parts_snoc(ts: Seq<TextElemModel>)
    requires
        ts.len() > 0,
    ensures
        words_of_parts(ts) == words_of_parts(ts.drop_last()) + narrowed_words(
            split_sep_from(strip_one(ts.last()), 0),
        ),
    decreases ts.len(),
{
    if ts.len() == 1 {
        assert(ts.drop_last() =~= Seq::<TextElemModel>::empty());
        assert(ts.drop_first() =~= Seq::<TextElemModel>::empty());
        assert(words_of_parts(ts) =~= words_of_parts(ts.drop_last()) + narrowed_words(
            split_sep_from(strip_one(ts.last()), 0),
        ));
    } else {
        lemma_words_of_parts_snoc(ts.drop_first());
        assert(ts.drop_first().last() == ts.last());
        assert(ts.drop_first().drop_last() =~= ts.drop_last().drop_first());
        assert(ts.drop_last()[0] == ts[0]);
        assert(words_of_parts(ts) =~= words_of_parts(ts.drop_last()) + narrowed_words(
            split_sep_from(strip_one(ts.last()), 0),
        ));
    }
}

/// Parses the document and delivers its lexical events in order: for each
/// element with text, the paragraph text (for paragraphs and quotes), the
/// sentences, then the words.
pub fn lexical_events<'a>(on: &'a str) -> (r: Vec<LexicalEvent<'a>>)
    ensures
        events_view(r@) == events_of(scan(on@, false).elements),
{
    let output = parse(on);
    let es = output.elements;
    let ghost ems = scan(on@, false).elements;
    let mut out: Vec<LexicalEvent<'a>> = Vec::new();
    proof {
        assert(events_view(out@) =~= events_of(ems.subrange(0, 0)));
    }
    let mut i: usize = 0;
    while i < es.len()
        invariant
            elems_view(es@) == ems,
            0 <= i <= es@.len(),
            es@.len() == ems.len(),
            events_view(out@) == events_of(ems.subrange(0, i as int)),
        decreases es@.len() - i,
    {
        proof {
            assert(elems_view(es@)[i as int] == es@[i as int]@);
            assert(ems.subrange(0, i + 1).drop_last() =~= ems.subrange(0, i as int));
            assert(ems.subrange(0, i + 1).last() == ems[i as int]);
        }
        let ghost done = events_view(out@);
        let mut evs = element_events(&es[i]);
        let ghost added = events_view(evs@);
        let mut j: usize = 0;
        while j < evs.len()
            invariant
                0 <= j <= evs@.len(),
                events_view(evs@) == added,
                events_view(out@) == done + added.subrange(0, j as int),
            decreases evs@.len() - j,
        {
            proof {
                assert(events_view(evs@)[j as int] == added[j as int]);
            }
            let ghost prior = out@;
            out.push(evs[j]);
            proof {
                assert(events_view(out@) =~= events_view(prior).push(added[j as int]));
                assert(added.subrange(0, j + 1) =~= added.subrange(0, j as int).push(
                    added[j as int],
                ));
                assert(events_view(out@) =~= done + added.subrange(0, j + 1));
            }
            j = j + 1;
        }
        proof {
            assert(added.subrange(0, added.len() as int) =~= added);
            assert(events_view(out@) =~= events_of(ems.subrange(0, i + 1)));
        }
        i = i + 1;
    }
    proof {
        assert(ems.subrange(0, ems.len() as int) =~= ems);
    }
    out
}

/// A consumer of the lexical events; the caller supplies the behaviour.
pub trait LexicalAnalyser {
    fn word(&mut self, word: &str);

    /// Called with the decoration still in place.
    fn sentence(&mut self, sentence: &str);

    /// Called with the decoration still in place.
    fn paragraph(&mut self, paragraph: &str);
}

/// Parses the document and reports each lexical event to `analyser`, in
/// the order [`lexical_events`] delivers them.
pub fn lexical_analysis(on: &str, analyser: &mut impl LexicalAnalyser) {
    let events = lexical_events(on);
    let mut i: usize = 0;
    while i < events.len()
        decreases events@.len() - i,
    {
        match events[i] {
            LexicalEvent::Paragraph(t) => analyser.paragraph(t),
            LexicalEvent::Sentence(t) => analyser.sentence(t),
            LexicalEvent::Word(t) => analyser.word(t),
        }
        i = i + 1;
    }
}

} // verus!
