//! The line classifier: one trimmed line of text maps to exactly one block
//! element, or to a diagnostic when a level run cannot be represented.

use vstd::prelude::*;
use vstd::string::StrSliceExecFns;

use crate::elements::{MarkdownElement, ParseDiagnostic, RawMarkdown, RawText};
use crate::model::ElemModel;
use crate::text::{
    leading_blank_run, leading_blank_run_s, leading_run, leading_run_s, lemma_leading_run,
    str_eq_str, trim_s, trim_str,
};

verus! {

/// What one line classifies to.  The rules are checked in order: a `#` run
/// makes a heading, a leading `>` a quote, exactly `---` a horizontal rule,
/// a leading `-` a list item, an empty line is `Empty`, anything else a
/// paragraph.  A `#` or indentation run longer than 255 cannot be
/// represented and fails the classification with a diagnostic.
pub open spec fn classify(line: Seq<char>) -> Result<ElemModel, ParseDiagnostic> {
    let t = trim_s(line);
    if t.len() > 0 && t[0] == '#' {
        let run = leading_run_s(t, '#');
        if run <= 255 {
            Ok(ElemModel::Heading {
                level: run as u8,
                text: trim_s(t.subrange(run, t.len() as int)),
            })
        } else {
            Err(ParseDiagnostic::DeepHeadingLevel)
        }
    } else if t.len() > 0 && t[0] == '>' {
        Ok(ElemModel::Quote { text: t.subrange(1, t.len() as int) })
    } else if t == "---"@ {
        Ok(ElemModel::HorizontalRule)
    } else if t.len() > 0 && t[0] == '-' {
        let rest = t.subrange(1, t.len() as int);
        let run = leading_blank_run_s(rest);
        if run <= 255 {
            Ok(ElemModel::ListItem { level: run as u8, text: trim_s(rest) })
        } else {
            Err(ParseDiagnostic::DeepListLevel)
        }
    } else if t.len() == 0 {
        Ok(ElemModel::Empty)
    } else {
        Ok(ElemModel::Paragraph { text: t })
    }
}

/// Classifies a single line into a block element.
///
/// Returns `Err` exactly when the line is a heading whose `#` run, or a
/// list item whose indentation run, is deeper than 255.
pub fn decide<'a>(item: &'a str) -> (r: Result<MarkdownElement<'a>, ParseDiagnostic>)
    ensures
        match r {
            Ok(e) => classify(item@) == Ok::<ElemModel, ParseDiagnostic>(e@),
            Err(d) => classify(item@) == Err::<ElemModel, ParseDiagnostic>(d),
        },
{
    let t = trim_str(item);
    let n = t.unicode_len();
    if n > 0 && t.get_char(0) == '#' {
        let run = leading_run(t, '#');
        proof {
            lemma_leading_run(t@, '#');
        }
        if run <= 255 {
            let text = trim_str(t.substring_char(run, n));
            Ok(MarkdownElement::Heading { level: run as u8, text: RawText(text) })
        } else {
            Err(ParseDiagnostic::DeepHeadingLevel)
        }
    } else if n > 0 && t.get_char(0) == '>' {
        Ok(MarkdownElement::Quote(RawMarkdown(t.substring_char(1, n))))
    } else if str_eq_str(t, "---") {
        Ok(MarkdownElement::HorizontalRule)
    } else if n > 0 && t.get_char(0) == '-' {
        let rest = t.substring_char(1, n);
        let run = leading_blank_run(rest);
        if run <= 255 {
            Ok(MarkdownElement::ListItem { level: run as u8, text: RawText(trim_str(rest)) })
        } else {
            Err(ParseDiagnostic::DeepListLevel)
        }
    } else if n == 0 {
        Ok(MarkdownElement::Empty)
    } else {
        Ok(MarkdownElement::Paragraph(RawText(t)))
    }
}

} // verus!
