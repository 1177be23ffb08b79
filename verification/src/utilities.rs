//! Utilities built on the parse: the element stream paired with the chain
//! of headings that are open above each element.
//!
//! The chain is rebuilt on every heading of level `L`: it is cut or padded
//! (with empty texts for skipped levels) to length `L - 1`, the heading is
//! delivered together with that chain of its ancestors, and its own text is
//! then pushed.

use vstd::prelude::*;
use vstd::string::StrSliceExecFns;
use vstd::string::StringExecFns;

use crate::elements::{MarkdownElement, ParseDiagnostic, RawText};
use crate::model::ElemModel;
use crate::scan::{elems_view, parse, scan};
pub use crate::lexical::{lexical_analysis, LexicalAnalyser};

verus! {

/// `c` cut or padded with empty texts to length `m` (empty for `m <= 0`).
pub open spec fn chain_trim(c: Seq<Seq<char>>, m: int) -> Seq<Seq<char>> {
    if m <= 0 {
        Seq::empty()
    } else if c.len() >= m {
        c.subrange(0, m)
    } else {
        c + Seq::new((m - c.len()) as nat, |i: int| Seq::<char>::empty())
    }
}

/// The chain of open heading texts after the elements `es`: each heading of
/// level `L` cuts or pads the chain to `L - 1` and pushes its own text.
pub open spec fn chain_after(es: Seq<ElemModel>) -> Seq<Seq<char>>
    decreases es.len(),
{
    if es.len() == 0 {
        Seq::empty()
    } else {
        let prev = chain_after(es.drop_last());
        match es.last() {
            ElemModel::Heading { level, text } => chain_trim(prev, level - 1).push(text),
            _ => prev,
        }
    }
}

/// Each element of `es` paired with the chain it is delivered with: for a
/// heading, its ancestors only (the chain cut or padded to its level minus
/// one, before its own text is pushed); for any other element, the chain as
/// the headings before it left it.
pub open spec fn with_chain(es: Seq<ElemModel>) -> Seq<(Seq<Seq<char>>, ElemModel)>
    decreases es.len(),
{
    if es.len() == 0 {
        Seq::empty()
    } else {
        let prev_pairs = with_chain(es.drop_last());
        let prev = chain_after(es.drop_last());
        let delivered = match es.last() {
            ElemModel::Heading { level, .. } => chain_trim(prev, level - 1),
            _ => prev,
        };
        prev_pairs.push((delivered, es.last()))
    }
}

/// The character sequences of a chain.
pub open spec fn chain_view<'a>(v: Seq<RawText<'a>>) -> Seq<Seq<char>> {
    v.map_values(|r: RawText<'a>| r@)
}

/// The models of the delivered pairs.
pub open spec fn pairs_model<'a>(v: Seq<(Vec<RawText<'a>>, MarkdownElement<'a>)>)
    -> Seq<(Seq<Seq<char>>, ElemModel)> {
    v.map_values(|p: (Vec<RawText<'a>>, MarkdownElement<'a>)| (chain_view(p.0@), p.1@))
}

/// A copy of the current chain.
fn clone_chain<'a>(c: &Vec<RawText<'a>>) -> (r: Vec<RawText<'a>>)
    ensures
        r@ == c@,
{
    let mut r: Vec<RawText<'a>> = Vec::new();
    let mut i: usize = 0;
    while i < c.len()
        invariant
            0 <= i <= c@.len(),
            r@ == c@.subrange(0, i as int),
        decreases c@.len() - i,
    {
        r.push(c[i]);
        proof {
            assert(r@ =~= c@.subrange(0, i + 1));
        }
        i = i + 1;
    }
    proof {
        assert(r@ =~= c@);
    }
    r
}

/// Parses the document and pairs every element with the chain of heading
/// texts open above it, in document order; the parse's diagnostics come
/// alongside.
pub fn parse_with_header_information<'a>(on: &'a str) -> (r: (
    Vec<(Vec<RawText<'a>>, MarkdownElement<'a>)>,
    Vec<ParseDiagnostic>,
))
    ensures
        pairs_model(r.0@) == with_chain(scan(on@, false).elements),
        r.1@ == scan(on@, false).diags,
{
    proof {
        reveal_strlit("");
    }
    let output = parse(on);
    let es = output.elements;
    let ghost ems = scan(on@, false).elements;
    let mut chain: Vec<RawText<'a>> = Vec::new();
    let mut items: Vec<(Vec<RawText<'a>>, MarkdownElement<'a>)> = Vec::new();
    proof {
        assert(chain_view(chain@) =~= chain_after(ems.subrange(0, 0)));
        assert(pairs_model(items@) =~= with_chain(ems.subrange(0, 0)));
    }
    let mut i: usize = 0;
    while i < es.len()
        invariant
            elems_view(es@) == ems,
            0 <= i <= es@.len(),
            es@.len() == ems.len(),
            chain_view(chain@) == chain_after(ems.subrange(0, i as int)),
            pairs_model(items@) == with_chain(ems.subrange(0, i as int)),
        decreases es@.len() - i,
    {
        proof {
            assert(elems_view(es@)[i as int] == es@[i as int]@);
            assert(ems.subrange(0, i + 1).drop_last() =~= ems.subrange(0, i as int));
            assert(ems.subrange(0, i + 1).last() == ems[i as int]);
        }
        let e = es[i];
        let ghost prev = chain_after(ems.subrange(0, i as int));
        match e {
            MarkdownElement::Heading { level, text } => {
                let raw: usize = if level >= 1 {
                    (level - 1) as usize
                } else {
                    0
                };
                if chain.len() < raw {
                    proof {
                        assert(chain_view(chain@) =~= prev + Seq::new(
                            0,
                            |k: int| Seq::<char>::empty(),
                        ));
                    }
                    while chain.len() < raw
                        invariant
                            chain@.len() <= raw,
                            prev.len() <= chain@.len(),
                            chain_view(chain@) == prev + Seq::new(
                                (chain@.len() - prev.len()) as nat,
                                |k: int| Seq::<char>::empty(),
                            ),
                        decreases raw - chain@.len(),
                    {
                        let ghost prior = chain@;
                        chain.push(RawText(""));
                        proof {
                            reveal_strlit("");
                            assert(""@ =~= Seq::<char>::empty());
                            assert(chain_view(chain@) =~= chain_view(prior).push(""@));
                            assert(chain_view(chain@) =~= prev + Seq::new(
                                (chain@.len() - prev.len()) as nat,
                                |k: int| Seq::<char>::empty(),
                            ));
                        }
                    }
                    proof {
                        assert(chain_view(chain@) =~= chain_trim(prev, level - 1));
                    }
                } else {
                    chain.truncate(raw);
                    proof {
                        assert(chain_view(chain@) =~= chain_trim(prev, level - 1));
                    }
                }
                let delivered = clone_chain(&chain);
                items.push((delivered, e));
                chain.push(text);
                proof {
                    assert(chain_view(chain@) =~= chain_trim(prev, level - 1).push(text@));
                    assert(chain_view(chain@) =~= chain_after(ems.subrange(0, i + 1)));
                    assert(pairs_model(items@) =~= with_chain(ems.subrange(0, i + 1)));
                }
            },
            _ => {
                let delivered = clone_chain(&chain);
                items.push((delivered, e));
                proof {
                    assert(chain_view(chain@) =~= chain_after(ems.subrange(0, i + 1)));
                    assert(pairs_model(items@) =~= with_chain(ems.subrange(0, i + 1)));
                }
            },
        }
        i = i + 1;
    }
    proof {
        assert(ems.subrange(0, ems.len() as int) =~= ems);
    }
    (items, output.diagnostics)
}


/// The elements since the last heading, after `es`.
pub open spec fn inner_after(es: Seq<ElemModel>) -> Seq<ElemModel>
    decreases es.len(),
{
    if es.len() == 0 {
        Seq::empty()
    } else {
        match es.last() {
            ElemModel::Heading { .. } => Seq::empty(),
            _ => inner_after(es.drop_last()).push(es.last()),
        }
    }
}

/// The groups a block parse delivers before the final one: every heading
/// closes the group of elements collected since the one before it, paired
/// with the chain as it stood then.
pub open spec fn block_groups(es: Seq<ElemModel>) -> Seq<(Seq<Seq<char>>, Seq<ElemModel>)>
    decreases es.len(),
{
    if es.len() == 0 {
        Seq::empty()
    } else {
        let prev = block_groups(es.drop_last());
        match es.last() {
            ElemModel::Heading { .. } => prev.push(
                (chain_after(es.drop_last()), inner_after(es.drop_last())),
            ),
            _ => prev,
        }
    }
}

/// The models of the delivered groups.
pub open spec fn groups_model<'a>(v: Seq<(Vec<RawText<'a>>, Vec<MarkdownElement<'a>>)>)
    -> Seq<(Seq<Seq<char>>, Seq<ElemModel>)> {
    v.map_values(
        |p: (Vec<RawText<'a>>, Vec<MarkdownElement<'a>>)| (chain_view(p.0@), elems_view(p.1@)),
    )
}

/// A copy of the inner elements collected so far.
fn clone_elems<'a>(c: &Vec<MarkdownElement<'a>>) -> (r: Vec<MarkdownElement<'a>>)
    ensures
        r@ == c@,
{
    let mut r: Vec<MarkdownElement<'a>> = Vec::new();
    let mut i: usize = 0;
    while i < c.len()
        invariant
            0 <= i <= c@.len(),
            r@ == c@.subrange(0, i as int),
        decreases c@.len() - i,
    {
        r.push(c[i]);
        proof {
            assert(r@ =~= c@.subrange(0, i + 1));
        }
        i = i + 1;
    }
    proof {
        assert(r@ =~= c@);
    }
    r
}

/// Parses the document into groups: each heading closes the group of
/// elements collected since the previous heading, delivered with the chain
/// as it stood; a final group holds what followed the last heading.
pub fn parse_blocks<'a>(on: &'a str) -> (r: (
    Vec<(Vec<RawText<'a>>, Vec<MarkdownElement<'a>>)>,
    Vec<ParseDiagnostic>,
))
    ensures
        ({
            let es = scan(on@, false).elements;
            groups_model(r.0@) == block_groups(es).push(
                (chain_after(es), inner_after(es)),
            )
        }),
        r.1@ == scan(on@, false).diags,
{
    proof {
        reveal_strlit("");
    }
    let output = parse(on);
    let es = output.elements;
    let ghost ems = scan(on@, false).elements;
    let mut chain: Vec<RawText<'a>> = Vec::new();
    let mut inner: Vec<MarkdownElement<'a>> = Vec::new();
    let mut groups: Vec<(Vec<RawText<'a>>, Vec<MarkdownElement<'a>>)> = Vec::new();
    proof {
        assert(chain_view(chain@) =~= chain_after(ems.subrange(0, 0)));
        assert(elems_view(inner@) =~= inner_after(ems.subrange(0, 0)));
        assert(groups_model(groups@) =~= block_groups(ems.subrange(0, 0)));
    }
    let mut i: usize = 0;
    while i < es.len()
        invariant
            elems_view(es@) == ems,
            0 <= i <= es@.len(),
            es@.len() == ems.len(),
            chain_view(chain@) == chain_after(ems.subrange(0, i as int)),
            elems_view(inner@) == inner_after(ems.subrange(0, i as int)),
            groups_model(groups@) == block_groups(ems.subrange(0, i as int)),
        decreases es@.len() - i,
    {
        proof {
            assert(elems_view(es@)[i as int] == es@[i as int]@);
            assert(ems.subrange(0, i + 1).drop_last() =~= ems.subrange(0, i as int));
            assert(ems.subrange(0, i + 1).last() == ems[i as int]);
        }
        let e = es[i];
        let ghost prev = chain_after(ems.subrange(0, i as int));
        match e {
            MarkdownElement::Heading { level, text } => {
                groups.push((clone_chain(&chain), clone_elems(&inner)));
                inner = Vec::new();
                let raw: usize = if level >= 1 {
                    (level - 1) as usize
                } else {
                    0
                };
                if chain.len() < raw {
                    proof {
                        assert(chain_view(chain@) =~= prev + Seq::new(
                            0,
                            |k: int| Seq::<char>::empty(),
                        ));
                    }
                    while chain.len() < raw
                        invariant
                            chain@.len() <= raw,
                            prev.len() <= chain@.len(),
                            chain_view(chain@) == prev + Seq::new(
                                (chain@.len() - prev.len()) as nat,
                                |k: int| Seq::<char>::empty(),
                            ),
                        decreases raw - chain@.len(),
                    {
                        let ghost prior = chain@;
                        chain.push(RawText(""));
                        proof {
                            reveal_strlit("");
                            assert(""@ =~= Seq::<char>::empty());
                            assert(chain_view(chain@) =~= chain_view(prior).push(""@));
                            assert(chain_view(chain@) =~= prev + Seq::new(
                                (chain@.len() - prev.len()) as nat,
                                |k: int| Seq::<char>::empty(),
                            ));
                        }
                    }
                    proof {
                        assert(chain_view(chain@) =~= chain_trim(prev, level - 1));
                    }
                } else {
                    chain.truncate(raw);
                    proof {
                        assert(chain_view(chain@) =~= chain_trim(prev, level - 1));
                    }
                }
                chain.push(text);
                proof {
                    assert(chain_view(chain@) =~= chain_trim(prev, level - 1).push(text@));
                    assert(chain_view(chain@) =~= chain_after(ems.subrange(0, i + 1)));
                    assert(elems_view(inner@) =~= inner_after(ems.subrange(0, i + 1)));
                    assert(groups_model(groups@) =~= block_groups(ems.subrange(0, i + 1)));
                }
            },
            _ => {
                inner.push(e);
                proof {
                    assert(chain_view(chain@) =~= chain_after(ems.subrange(0, i + 1)));
                    assert(elems_view(inner@) =~= inner_after(ems.subrange(0, i + 1)));
                    assert(groups_model(groups@) =~= block_groups(ems.subrange(0, i + 1)));
                }
            },
        }
        i = i + 1;
    }
    groups.push((chain, inner));
    proof {
        assert(ems.subrange(0, ems.len() as int) =~= ems);
        assert(groups_model(groups@) =~= block_groups(ems).push(
            (chain_after(ems), inner_after(ems)),
        ));
    }
    (groups, output.diagnostics)
}


/// Model of one extracted code block.
pub struct CodeBlockModel {
    pub location: Seq<Seq<char>>,
    pub language: Seq<char>,
    pub code: Seq<char>,
    pub information: Seq<char>,
    pub items: Seq<Seq<char>>,
}

/// The empty code block the extraction accumulates into.
pub open spec fn empty_code_block() -> CodeBlockModel {
    CodeBlockModel {
        location: Seq::empty(),
        language: Seq::empty(),
        code: Seq::empty(),
        information: Seq::empty(),
        items: Seq::empty(),
    }
}

/// The block being accumulated after the elements `es`: headings reset it,
/// a code block sets its language and code, paragraphs and quotes append
/// to its information, list items to its items.
pub open spec fn code_current(es: Seq<ElemModel>) -> CodeBlockModel
    decreases es.len(),
{
    if es.len() == 0 {
        empty_code_block()
    } else {
        let cur = code_current(es.drop_last());
        match es.last() {
            ElemModel::Heading { .. } => empty_code_block(),
            ElemModel::CodeBlock { language, code } => CodeBlockModel {
                language,
                code,
                ..cur
            },
            ElemModel::Paragraph { text } => CodeBlockModel {
                information: cur.information + text,
                ..cur
            },
            ElemModel::Quote { text } => CodeBlockModel {
                information: cur.information + text,
                ..cur
            },
            ElemModel::ListItem { text, .. } => CodeBlockModel {
                items: cur.items.push(text),
                ..cur
            },
            _ => cur,
        }
    }
}

/// The blocks finished before the end of `es`: each heading closes the
/// accumulated block, which is kept when it holds code, stamped with the
/// chain as it stood.
pub open spec fn code_blocks_acc(es: Seq<ElemModel>) -> Seq<CodeBlockModel>
    decreases es.len(),
{
    if es.len() == 0 {
        Seq::empty()
    } else {
        let prev = code_blocks_acc(es.drop_last());
        match es.last() {
            ElemModel::Heading { .. } => {
                let cur = code_current(es.drop_last());
                if cur.code.len() > 0 {
                    prev.push(
                        CodeBlockModel { location: chain_after(es.drop_last()), ..cur },
                    )
                } else {
                    prev
                }
            },
            _ => prev,
        }
    }
}

/// What the whole extraction of `es` delivers: the finished blocks, plus
/// the still-accumulating one when it holds code (it keeps its empty
/// location, as nothing closed it).
pub open spec fn code_blocks_of(es: Seq<ElemModel>) -> Seq<CodeBlockModel> {
    let cur = code_current(es);
    if cur.code.len() > 0 {
        code_blocks_acc(es).push(cur)
    } else {
        code_blocks_acc(es)
    }
}

/// One extracted code block: the code and language found under a chain of
/// headings, with the surrounding prose and list items.
pub struct CodeBlock {
    pub location: Vec<String>,
    pub language: String,
    pub code: String,
    /// From quotes and paragraphs around the code.
    pub information: String,
    /// From list items around the code.
    pub items: Vec<String>,
}

impl View for CodeBlock {
    type V = CodeBlockModel;

    open spec fn view(&self) -> CodeBlockModel {
        CodeBlockModel {
            location: self.location@.map_values(|l: String| l@),
            language: self.language@,
            code: self.code@,
            information: self.information@,
            items: self.items@.map_values(|l: String| l@),
        }
    }
}

impl Default for CodeBlock {
    /// An empty accumulator.
    fn default() -> (r: Self)
        ensures
            r@ == empty_code_block(),
    {
        let r = CodeBlock {
            location: Vec::new(),
            language: String::new(),
            code: String::new(),
            information: String::new(),
            items: Vec::new(),
        };
        proof {
            assert(r@.location =~= Seq::<Seq<char>>::empty());
            assert(r@.items =~= Seq::<Seq<char>>::empty());
        }
        r
    }
}

/// The models of a list of extracted blocks.
pub open spec fn code_blocks_view(v: Seq<CodeBlock>) -> Seq<CodeBlockModel> {
    v.map_values(|b: CodeBlock| b@)
}

/// Copies of the chain's texts, owned.
fn chain_strings<'a>(c: &Vec<RawText<'a>>) -> (r: Vec<String>)
    ensures
        r@.map_values(|l: String| l@) == chain_view(c@),
{
    let mut r: Vec<String> = Vec::new();
    let mut i: usize = 0;
    while i < c.len()
        invariant
            0 <= i <= c@.len(),
            r@.map_values(|l: String| l@) == chain_view(c@.subrange(0, i as int)),
        decreases c@.len() - i,
    {
        let ghost prior = r@;
        let piece = String::from_str(c[i].0);
        let ghost piece_chars = piece@;
        r.push(piece);
        proof {
            assert(r@.map_values(|l: String| l@) =~= prior.map_values(|l: String| l@).push(
                piece_chars,
            ));
            assert(piece_chars == c@[i as int]@);
            assert(r@.map_values(|l: String| l@) =~= chain_view(c@.subrange(0, i + 1)));
        }
        i = i + 1;
    }
    proof {
        assert(c@.subrange(0, c@.len() as int) =~= c@);
    }
    r
}

/// Extracts every fenced code block of the document, stamped with the
/// heading chain above it and the prose and list items collected around
/// it.
pub fn extract_code_blocks(on: &str) -> (r: Vec<CodeBlock>)
    ensures
        code_blocks_view(r@) == code_blocks_of(scan(on@, false).elements),
{
    proof {
        reveal_strlit("");
    }
    let output = parse(on);
    let es = output.elements;
    let ghost ems = scan(on@, false).elements;
    let mut chain: Vec<RawText> = Vec::new();
    let mut current = CodeBlock::default();
    let mut blocks: Vec<CodeBlock> = Vec::new();
    proof {
        assert(chain_view(chain@) =~= chain_after(ems.subrange(0, 0)));
        assert(code_blocks_view(blocks@) =~= code_blocks_acc(ems.subrange(0, 0)));
        assert(current@ == code_current(ems.subrange(0, 0)));
    }
    let mut i: usize = 0;
    while i < es.len()
        invariant
            elems_view(es@) == ems,
            0 <= i <= es@.len(),
            es@.len() == ems.len(),
            chain_view(chain@) == chain_after(ems.subrange(0, i as int)),
            code_blocks_view(blocks@) == code_blocks_acc(ems.subrange(0, i as int)),
            current@ == code_current(ems.subrange(0, i as int)),
            current@.location == Seq::<Seq<char>>::empty(),
        decreases es@.len() - i,
    {
        proof {
            assert(elems_view(es@)[i as int] == es@[i as int]@);
            assert(ems.subrange(0, i + 1).drop_last() =~= ems.subrange(0, i as int));
            assert(ems.subrange(0, i + 1).last() == ems[i as int]);
        }
        let e = es[i];
        let ghost prev = chain_after(ems.subrange(0, i as int));
        match e {
            MarkdownElement::Heading { level, text } => {
                let mut finished = current;
                current = CodeBlock::default();
                if !finished.code.as_str().is_empty() {
                    finished.location = chain_strings(&chain);
                    blocks.push(finished);
                    proof {
                        assert(code_blocks_view(blocks@) =~= code_blocks_acc(
                            ems.subrange(0, i + 1),
                        ));
                    }
                } else {
                    proof {
                        assert(code_blocks_view(blocks@) =~= code_blocks_acc(
                            ems.subrange(0, i + 1),
                        ));
                    }
                }
                let raw: usize = if level >= 1 {
                    (level - 1) as usize
                } else {
                    0
                };
                if chain.len() < raw {
                    proof {
                        assert(chain_view(chain@) =~= prev + Seq::new(
                            0,
                            |k: int| Seq::<char>::empty(),
                        ));
                    }
                    while chain.len() < raw
                        invariant
                            chain@.len() <= raw,
                            prev.len() <= chain@.len(),
                            chain_view(chain@) == prev + Seq::new(
                                (chain@.len() - prev.len()) as nat,
                                |k: int| Seq::<char>::empty(),
                            ),
                        decreases raw - chain@.len(),
                    {
                        let ghost prior = chain@;
                        chain.push(RawText(""));
                        proof {
                            reveal_strlit("");
                            assert(""@ =~= Seq::<char>::empty());
                            assert(chain_view(chain@) =~= chain_view(prior).push(""@));
                            assert(chain_view(chain@) =~= prev + Seq::new(
                                (chain@.len() - prev.len()) as nat,
                                |k: int| Seq::<char>::empty(),
                            ));
                        }
                    }
                    proof {
                        assert(chain_view(chain@) =~= chain_trim(prev, level - 1));
                    }
                } else {
                    chain.truncate(raw);
                    proof {
                        assert(chain_view(chain@) =~= chain_trim(prev, level - 1));
                    }
                }
                chain.push(text);
                proof {
                    assert(chain_view(chain@) =~= chain_trim(prev, level - 1).push(text@));
                    assert(chain_view(chain@) =~= chain_after(ems.subrange(0, i + 1)));
                }
            },
            MarkdownElement::CodeBlock { language, code } => {
                current.language = String::from_str(language);
                current.code = String::from_str(code);
                proof {
                    assert(chain_view(chain@) =~= chain_after(ems.subrange(0, i + 1)));
                    assert(code_blocks_view(blocks@) =~= code_blocks_acc(
                        ems.subrange(0, i + 1),
                    ));
                }
            },
            MarkdownElement::Paragraph(text) => {
                current.information.append(text.0);
                proof {
                    assert(chain_view(chain@) =~= chain_after(ems.subrange(0, i + 1)));
                    assert(code_blocks_view(blocks@) =~= code_blocks_acc(
                        ems.subrange(0, i + 1),
                    ));
                }
            },
            MarkdownElement::Quote(text) => {
                current.information.append(text.0);
                proof {
                    assert(chain_view(chain@) =~= chain_after(ems.subrange(0, i + 1)));
                    assert(code_blocks_view(blocks@) =~= code_blocks_acc(
                        ems.subrange(0, i + 1),
                    ));
                }
            },
            MarkdownElement::ListItem { text, .. } => {
                current.items.push(String::from_str(text.0));
                proof {
                    assert(current@.items =~= code_current(ems.subrange(0, i as int)).items
                        .push(text@));
                    assert(chain_view(chain@) =~= chain_after(ems.subrange(0, i + 1)));
                    assert(code_blocks_view(blocks@) =~= code_blocks_acc(
                        ems.subrange(0, i + 1),
                    ));
                }
            },
            _ => {
                proof {
                    assert(chain_view(chain@) =~= chain_after(ems.subrange(0, i + 1)));
                    assert(code_blocks_view(blocks@) =~= code_blocks_acc(
                        ems.subrange(0, i + 1),
                    ));
                }
            },
        }
        i = i + 1;
    }
    proof {
        assert(ems.subrange(0, ems.len() as int) =~= ems);
    }
    if !current.code.as_str().is_empty() {
        blocks.push(current);
        proof {
            assert(code_blocks_view(blocks@) =~= code_blocks_of(ems));
        }
    } else {
        proof {
            assert(code_blocks_view(blocks@) =~= code_blocks_of(ems));
        }
    }
    blocks
}

} // verus!
