//! The command-argument parser: `key=value` and `key="quoted value"` pairs
//! separated by spaces.  A key is recognised at an `=` outside quotes, a
//! value ends at the next unquoted space, and values are trimmed and
//! un-quoted.  A dangling open quote is reported but the partial value is
//! still delivered.

use vstd::prelude::*;
use vstd::string::StrSliceExecFns;

use crate::elements::CommandBlock;
use crate::text::{trim_s, trim_str};

verus! {

/// `v` without one pair of surrounding double quotes, when it has one.
pub open spec fn unquote(v: Seq<char>) -> Seq<char> {
    if v.len() >= 2 && v[0] == '"' && v[v.len() - 1] == '"' {
        v.subrange(1, v.len() - 1)
    } else {
        v
    }
}

/// What an argument string parses to: the ordered key/value pairs, and
/// whether the string ended inside an open quote.
pub struct ArgsModel {
    pub pairs: Seq<(Seq<char>, Seq<char>)>,
    pub dangling: bool,
}

/// The argument scan from position `idx`: `key` is the pending key (its
/// value started at `start`), `in_string` whether the scan is inside
/// quotes.  Without a pending key, an `=` closes the key; with one, an
/// unquoted space after a non-empty value closes the pair, and the last
/// pending pair is closed by the end of the string.
pub open spec fn args_scan(
    s: Seq<char>,
    idx: int,
    start: int,
    key: Option<Seq<char>>,
    in_string: bool,
) -> ArgsModel
    decreases s.len() - idx,
{
    if idx < 0 || idx >= s.len() {
        match key {
            Some(k) => ArgsModel {
                pairs: seq![(k, unquote(trim_s(s.subrange(start, s.len() as int))))],
                dangling: in_string,
            },
            None => ArgsModel { pairs: Seq::empty(), dangling: false },
        }
    } else {
        let chr = s[idx];
        match key {
            Some(k) => {
                let value = trim_s(s.subrange(start, idx));
                if chr == ' ' && !in_string && value.len() > 0 {
                    let rest = args_scan(s, idx + 1, idx, None, in_string);
                    ArgsModel {
                        pairs: seq![(k, unquote(value))] + rest.pairs,
                        dangling: rest.dangling,
                    }
                } else if chr == '"' {
                    args_scan(s, idx + 1, start, key, !in_string)
                } else {
                    args_scan(s, idx + 1, start, key, in_string)
                }
            },
            None => {
                if chr == '=' {
                    args_scan(s, idx + 1, idx + 1, Some(trim_s(s.subrange(start, idx))),
                        in_string)
                } else {
                    args_scan(s, idx + 1, start, None, in_string)
                }
            },
        }
    }
}

/// The full parse of an argument string.
pub open spec fn parse_arguments(s: Seq<char>) -> ArgsModel {
    args_scan(s, 0, 0, None, false)
}

/// The character sequences of a list of key/value pairs.
pub open spec fn pairs_view<'a>(v: Seq<(&'a str, &'a str)>) -> Seq<(Seq<char>, Seq<char>)> {
    v.map_values(|p: (&'a str, &'a str)| (p.0@, p.1@))
}

/// `v` without one pair of surrounding double quotes, when it has one.
fn unquote_str<'a>(v: &'a str) -> (r: &'a str)
    ensures
        r@ == unquote(v@),
{
    let n = v.unicode_len();
    if n >= 2 && v.get_char(0) == '"' && v.get_char(n - 1) == '"' {
        v.substring_char(1, n - 1)
    } else {
        v
    }
}

/// The executable argument scan; performs exactly what `args_scan` says,
/// appending the pairs to `out` and returning the dangling-quote flag.
fn args_rest<'a>(
    s: &'a str,
    n: usize,
    idx: usize,
    start: usize,
    key: Option<&'a str>,
    in_string: bool,
    out: &mut Vec<(&'a str, &'a str)>,
) -> (dangling: bool)
    requires
        n == s@.len(),
        start <= idx <= n,
    ensures
        ({
            let m = args_scan(s@, idx as int, start as int, match key {
                Some(k) => Some(k@),
                None => None,
            }, in_string);
            &&& pairs_view(final(out)@) == pairs_view(old(out)@) + m.pairs
            &&& dangling == m.dangling
        }),
    decreases n - idx,
{
    let ghost out0 = out@;
    if idx >= n {
        match key {
            Some(k) => {
                out.push((k, unquote_str(trim_str(s.substring_char(start, n)))));
                proof {
                    assert(pairs_view(out@) =~= pairs_view(out0) + args_scan(s@, idx as int,
                        start as int, Some(k@), in_string).pairs);
                }
                in_string
            },
            None => {
                proof {
                    assert(pairs_view(out@) =~= pairs_view(out0)
                        + Seq::<(Seq<char>, Seq<char>)>::empty());
                }
                false
            },
        }
    } else {
        let chr = s.get_char(idx);
        match key {
            Some(k) => {
                let value = trim_str(s.substring_char(start, idx));
                if chr == ' ' && !in_string && value.unicode_len() > 0 {
                    out.push((k, unquote_str(value)));
                    let dangling = args_rest(s, n, idx + 1, idx, None, in_string, out);
                    proof {
                        assert(pairs_view(out@) =~= pairs_view(out0) + args_scan(s@,
                            idx as int, start as int, Some(k@), in_string).pairs);
                    }
                    dangling
                } else if chr == '"' {
                    args_rest(s, n, idx + 1, start, key, !in_string, out)
                } else {
                    args_rest(s, n, idx + 1, start, key, in_string, out)
                }
            },
            None => {
                if chr == '=' {
                    let k = trim_str(s.substring_char(start, idx));
                    args_rest(s, n, idx + 1, idx + 1, Some(k), in_string, out)
                } else {
                    args_rest(s, n, idx + 1, start, None, in_string, out)
                }
            },
        }
    }
}

impl<'a> CommandBlock<'a> {
    /// The ordered key/value pairs of this block's argument string, values
    /// un-quoted and trimmed, and whether the string ended inside an open
    /// quote (the partial value is still delivered).
    pub fn arguments(&self) -> (r: (Vec<(&'a str, &'a str)>, bool))
        ensures
            pairs_view(r.0@) == parse_arguments(self.arguments@).pairs,
            r.1 == parse_arguments(self.arguments@).dangling,
    {
        let n = self.arguments.unicode_len();
        let mut out: Vec<(&'a str, &'a str)> = Vec::new();
        let dangling = args_rest(self.arguments, n, 0, 0, None, false, &mut out);
        proof {
            assert(pairs_view(out@) =~= parse_arguments(self.arguments@).pairs);
        }
        (out, dangling)
    }
}

} // verus!
