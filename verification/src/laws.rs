//! The round-trip law: a value whose number texts are digit runs, whose
//! strings contain no quote, and whose objects are empty renders to text
//! that scans back to exactly its tokens and parses back to exactly the
//! value.
//!
//! The boundary is tight: rendering emits strings unescaped, so a quote
//! inside a string ends the scanned token early, and it emits object keys
//! bare, so any object entry produces text the scanner rejects (the key's
//! characters stand outside every scanner rule).

use vstd::prelude::*;
use crate::tokenizer::{
    cons_tok, digit_run, is_digit, is_space, match_rest, prepend_toks, scan_from, scan_spec,
    str_body_len, word_false, word_null, word_true, SpecLexError,
};
use crate::parser::{
    bump_r, lemma_array_at_step, lemma_object_at_step, lemma_value_at_step, parse_array_at,
    parse_object_at, parse_spec, parse_value_at, SpecParseError,
};
use crate::render::{entries_text, item_text, items_text, render_spec};
use crate::value::{SpecToken, SpecValue};
use crate::{decode_and_render_spec, SpecPipelineError};

verus! {

broadcast use
    vstd::seq::axiom_seq_index_decreases,
    vstd::seq::axiom_seq_subrange_decreases;

/// The values the round-trip law speaks of: every number text is a nonempty
/// decimal digit run, no string contains a `"`, and every object is empty.
pub open spec fn rt_safe(v: SpecValue) -> bool
    decreases v, 0int,
{
    match v {
        SpecValue::Null => true,
        SpecValue::Bool(b) => true,
        SpecValue::Num(d) => d.len() >= 1 && (forall|i: int| 0 <= i < d.len() ==> is_digit(d[i])),
        SpecValue::Str(s) => forall|i: int| 0 <= i < s.len() ==> s[i] != '"',
        SpecValue::Array(elems) => rt_safe_list(elems),
        SpecValue::Object(fields) => fields.len() == 0,
    }
}

/// `rt_safe` for every element.
pub open spec fn rt_safe_list(elems: Seq<SpecValue>) -> bool
    decreases elems, 1int,
{
    if elems.len() == 0 {
        true
    } else {
        rt_safe(elems[0]) && rt_safe_list(elems.drop_first())
    }
}

/// The token sequence that rendering a round-trip-safe value produces.
pub open spec fn toks_of(v: SpecValue) -> Seq<SpecToken>
    decreases v, 0int,
{
    match v {
        SpecValue::Null => seq![SpecToken::Null],
        SpecValue::Bool(b) => seq![SpecToken::Bool(b)],
        SpecValue::Num(d) => seq![SpecToken::Num(d)],
        SpecValue::Str(s) => seq![SpecToken::Str(s)],
        SpecValue::Array(elems) => seq![SpecToken::SquareOpen] + toks_of_list(elems) + seq![
            SpecToken::SquareClose,
        ],
        SpecValue::Object(fields) => seq![SpecToken::CurlyOpen, SpecToken::CurlyClose],
    }
}

/// The tokens of rendered array elements: each element's tokens and the
/// trailing comma the renderer emits after every element.
pub open spec fn toks_of_list(elems: Seq<SpecValue>) -> Seq<SpecToken>
    decreases elems, 1int,
{
    if elems.len() == 0 {
        Seq::empty()
    } else {
        toks_of(elems[0]) + seq![SpecToken::Comma] + toks_of_list(elems.drop_first())
    }
}

/// Indentation text is tabs only.
pub open spec fn all_tabs(pad: Seq<char>) -> bool {
    forall|i: int| 0 <= i < pad.len() ==> pad[i] == '\t'
}

/// The characters of a known subrange, pointwise.
proof fn lemma_prefix_chars(s: Seq<char>, i: int, r: Seq<char>)
    requires
        0 <= i,
        i + r.len() <= s.len(),
        s.subrange(i, i + r.len()) == r,
    ensures
        forall|j: int| i <= j < i + r.len() ==> s[j] == r[j - i],
{
    assert forall|j: int| i <= j < i + r.len() implies s[j] == r[j - i] by {
        assert(r[j - i] == s.subrange(i, i + r.len())[j - i]);
    }
}

/// A digit run of known extent determines `digit_run`.
proof fn lemma_digit_run_exact(s: Seq<char>, i: int, m: int)
    requires
        0 <= i,
        0 <= m,
        i + m <= s.len(),
        forall|j: int| i <= j < i + m ==> is_digit(s[j]),
        i + m == s.len() || !is_digit(s[i + m]),
    ensures
        digit_run(s, i) == m,
    decreases m,
{
    if m == 0 {
    } else {
        assert(is_digit(s[i]));
        lemma_digit_run_exact(s, i + 1, m - 1);
    }
}

/// A quote-free stretch ended by a quote determines `str_body_len`.
proof fn lemma_str_body_exact(s: Seq<char>, i: int, m: int)
    requires
        0 <= i,
        0 <= m,
        i + m < s.len(),
        forall|j: int| i <= j < i + m ==> s[j] != '"',
        s[i + m] == '"',
    ensures
        str_body_len(s, i) == m,
    decreases m,
{
    if m == 0 {
    } else {
        lemma_str_body_exact(s, i + 1, m - 1);
    }
}

/// Characters that match the rest of a word make `match_rest` succeed.
proof fn lemma_match_rest_exact(s: Seq<char>, i: int, w: Seq<char>, k: int)
    requires
        0 <= i,
        1 <= k <= w.len(),
        i + (w.len() - k) <= s.len(),
        forall|j: int| i <= j < i + (w.len() - k) ==> s[j] == w[k + j - i],
    ensures
        match_rest(s, i, w, k) == None::<SpecLexError>,
    decreases w.len() - k,
{
    if k < w.len() {
        assert(s[i] == w[k]);
        lemma_match_rest_exact(s, i + 1, w, k + 1);
    }
}

/// Whitespace between tokens is skipped with no token emitted.
proof fn lemma_scan_skip_spaces(s: Seq<char>, i: int, m: int)
    requires
        0 <= i,
        0 <= m,
        i + m <= s.len(),
        forall|j: int| i <= j < i + m ==> is_space(s[j]),
    ensures
        scan_from(s, i) == scan_from(s, i + m),
    decreases m,
{
    if m > 0 {
        assert(is_space(s[i]));
        assert(!is_digit(s[i]));
        lemma_scan_skip_spaces(s, i + 1, m - 1);
    }
}

/// Scanning the rendering of a round-trip-safe value, standing at `s[i]`
/// with the rendered text as the next characters, yields exactly the
/// value's tokens and goes on after them.  The character after the
/// rendering (if any) must not be a digit, so that a rendered number does
/// not run into it.
#[verifier::rlimit(100)]
proof fn lemma_scan_value(v: SpecValue, pad: Seq<char>, s: Seq<char>, i: int)
    requires
        rt_safe(v),
        all_tabs(pad),
        0 <= i,
        i + render_spec(v, pad).len() <= s.len(),
        s.subrange(i, i + render_spec(v, pad).len()) == render_spec(v, pad),
        i + render_spec(v, pad).len() == s.len() || !is_digit(s[i + render_spec(v, pad).len()]),
    ensures
        scan_from(s, i) == prepend_toks(toks_of(v), scan_from(s, i + render_spec(v, pad).len())),
    decreases v, 0int,
{
    let r = render_spec(v, pad);
    lemma_prefix_chars(s, i, r);
    match v {
        SpecValue::Null => {
            assert(s[i] == r[0]);
            assert forall|j: int| i + 1 <= j < i + 4 implies s[j] == word_null()[1 + j - (i + 1)] by {
                assert(s[j] == r[j - i]);
            }
            lemma_match_rest_exact(s, i + 1, word_null(), 1);
            assert(scan_from(s, i) == cons_tok(SpecToken::Null, scan_from(s, i + 4)));
            assert(prepend_toks(toks_of(v), scan_from(s, i + 4)) == cons_tok(
                SpecToken::Null,
                scan_from(s, i + 4),
            ));
        },
        SpecValue::Bool(b) => {
            if b {
                assert(s[i] == r[0]);
                assert forall|j: int| i + 1 <= j < i + 4 implies s[j] == word_true()[1 + j - (i
                    + 1)] by {
                    assert(s[j] == r[j - i]);
                }
                lemma_match_rest_exact(s, i + 1, word_true(), 1);
                assert(scan_from(s, i) == cons_tok(SpecToken::Bool(true), scan_from(s, i + 4)));
            } else {
                assert(s[i] == r[0]);
                assert forall|j: int| i + 1 <= j < i + 5 implies s[j] == word_false()[1 + j - (i
                    + 1)] by {
                    assert(s[j] == r[j - i]);
                }
                lemma_match_rest_exact(s, i + 1, word_false(), 1);
                assert(scan_from(s, i) == cons_tok(SpecToken::Bool(false), scan_from(s, i + 5)));
            }
        },
        SpecValue::Num(d) => {
            assert forall|j: int| i <= j < i + d.len() implies is_digit(s[j]) by {
                assert(s[j] == d[j - i]);
            }
            assert(is_digit(s[i]));
            lemma_digit_run_exact(s, i, d.len() as int);
            assert(s.subrange(i, i + d.len()) =~= d);
            assert(scan_from(s, i) == cons_tok(SpecToken::Num(d), scan_from(s, i + d.len())));
        },
        SpecValue::Str(body) => {
            assert(s[i] == r[0]);
            assert(s[i + 1 + body.len()] == r[1 + body.len() as int]);
            assert forall|j: int| i + 1 <= j < i + 1 + body.len() implies s[j] != '"' by {
                assert(s[j] == r[j - i]);
                assert(r[j - i] == body[j - i - 1]);
            }
            lemma_str_body_exact(s, i + 1, body.len() as int);
            assert(s.subrange(i + 1, i + 1 + body.len()) =~= body);
            assert(scan_from(s, i) == cons_tok(
                SpecToken::Str(body),
                scan_from(s, i + body.len() + 2),
            ));
        },
        SpecValue::Array(elems) => {
            let items = items_text(elems, pad);
            assert(s[i] == r[0]);
            assert(scan_from(s, i) == cons_tok(SpecToken::SquareOpen, scan_from(s, i + 1)));
            assert(s.subrange(i + 1, i + 1 + items.len()) =~= items);
            lemma_scan_items(elems, pad, s, i + 1);
            let j = i + 1 + items.len();
            assert(s[j] == r[j - i]);
            assert(s[j] == '\n');
            assert forall|jj: int| j <= jj < j + 1 + pad.len() implies is_space(s[jj]) by {
                assert(s[jj] == r[jj - i]);
                if jj > j {
                    assert(r[jj - i] == pad[jj - j - 1]);
                }
            }
            lemma_scan_skip_spaces(s, j, 1 + pad.len() as int);
            let j2 = j + 1 + pad.len();
            assert(s[j2] == r[j2 - i]);
            assert(s[j2] == ']');
            assert(scan_from(s, j2) == cons_tok(SpecToken::SquareClose, scan_from(s, j2 + 1)));
            assert(j2 + 1 == i + r.len());
            let tail = scan_from(s, i + r.len());
            assert(scan_from(s, i) == cons_tok(
                SpecToken::SquareOpen,
                prepend_toks(toks_of_list(elems), cons_tok(SpecToken::SquareClose, tail)),
            ));
            match tail {
                Ok(ts) => {
                    assert(seq![SpecToken::SquareOpen] + (toks_of_list(elems) + (seq![
                        SpecToken::SquareClose,
                    ] + ts)) =~= toks_of(v) + ts);
                },
                Err(e) => {},
            }
        },
        SpecValue::Object(fields) => {
            assert(fields =~= Seq::<(Seq<char>, SpecValue)>::empty());
            assert(entries_text(fields, pad) =~= Seq::<char>::empty());
            assert(r =~= seq!['{'] + seq!['\n'] + pad + seq!['}']);
            assert(s[i] == r[0]);
            assert(scan_from(s, i) == cons_tok(SpecToken::CurlyOpen, scan_from(s, i + 1)));
            assert(s[i + 1] == r[1]);
            assert forall|jj: int| i + 1 <= jj < i + 2 + pad.len() implies is_space(s[jj]) by {
                assert(s[jj] == r[jj - i]);
                if jj > i + 1 {
                    assert(r[jj - i] == pad[jj - i - 2]);
                }
            }
            lemma_scan_skip_spaces(s, i + 1, 1 + pad.len() as int);
            let j2 = i + 2 + pad.len();
            assert(s[j2] == r[j2 - i]);
            assert(s[j2] == '}');
            assert(scan_from(s, j2) == cons_tok(SpecToken::CurlyClose, scan_from(s, j2 + 1)));
            assert(j2 + 1 == i + r.len());
            let tail = scan_from(s, i + r.len());
            match tail {
                Ok(ts) => {
                    assert(seq![SpecToken::CurlyOpen] + (seq![SpecToken::CurlyClose] + ts)
                        =~= toks_of(v) + ts);
                },
                Err(e) => {},
            }
        },
    }
}

/// Scanning the rendered elements of an array yields each element's tokens
/// with a comma after each, and goes on after them.
#[verifier::rlimit(100)]
proof fn lemma_scan_items(elems: Seq<SpecValue>, pad: Seq<char>, s: Seq<char>, i: int)
    requires
        rt_safe_list(elems),
        all_tabs(pad),
        0 <= i,
        i + items_text(elems, pad).len() <= s.len(),
        s.subrange(i, i + items_text(elems, pad).len()) == items_text(elems, pad),
    ensures
        scan_from(s, i) == prepend_toks(
            toks_of_list(elems),
            scan_from(s, i + items_text(elems, pad).len()),
        ),
    decreases elems, 1int,
{
    let items = items_text(elems, pad);
    lemma_prefix_chars(s, i, items);
    if elems.len() == 0 {
        match scan_from(s, i) {
            Ok(ts) => {
                assert(Seq::<SpecToken>::empty() + ts =~= ts);
            },
            Err(e) => {},
        }
    } else {
        let e0 = elems[0];
        let child = pad.push('\t');
        let r0 = render_spec(e0, child);
        let it0 = item_text(e0, pad);
        assert(it0 =~= seq!['\n', '\t'] + pad + r0 + seq![',']);
        assert(items =~= it0 + items_text(elems.drop_first(), pad));
        // skip the line break, the extra tab, and the indentation
        assert forall|jj: int| i <= jj < i + 2 + pad.len() implies is_space(s[jj]) by {
            assert(s[jj] == items[jj - i]);
            assert(items[jj - i] == it0[jj - i]);
            if jj >= i + 2 {
                assert(it0[jj - i] == pad[jj - i - 2]);
            }
        }
        lemma_scan_skip_spaces(s, i, 2 + pad.len() as int);
        let iv = i + 2 + pad.len();
        // the element's rendering, followed by the comma
        assert(all_tabs(child));
        assert forall|jj: int| iv <= jj < iv + r0.len() implies s[jj] == r0[jj - iv] by {
            assert(s[jj] == items[jj - i]);
            assert(items[jj - i] == it0[jj - i]);
            assert(it0[jj - i] == r0[jj - i - 2 - pad.len()]);
        }
        assert(s.subrange(iv, iv + r0.len()) =~= r0);
        assert(s[iv + r0.len()] == items[iv + r0.len() - i]);
        assert(items[iv + r0.len() - i] == it0[iv + r0.len() - i]);
        assert(s[iv + r0.len()] == ',');
        assert(!is_digit(s[iv + r0.len()]));
        lemma_scan_value(e0, child, s, iv);
        let ic = iv + r0.len();
        assert(scan_from(s, ic) == cons_tok(SpecToken::Comma, scan_from(s, ic + 1)));
        // the remaining elements
        let d = elems.drop_first();
        let restpos = ic + 1;
        assert(restpos == i + it0.len());
        assert(items =~= it0 + items_text(d, pad));
        assert(s.subrange(restpos, restpos + items_text(d, pad).len()) =~= items_text(d, pad));
        lemma_scan_items(d, pad, s, restpos);
        let tail = scan_from(s, i + items.len());
        assert(scan_from(s, i) == prepend_toks(
            toks_of(e0),
            cons_tok(SpecToken::Comma, prepend_toks(toks_of_list(d), tail)),
        ));
        match tail {
            Ok(ts) => {
                assert(toks_of(e0) + (seq![SpecToken::Comma] + (toks_of_list(d) + ts))
                    =~= toks_of_list(elems) + ts);
            },
            Err(e) => {},
        }
    }
}

/// The first token of a value is never a closer, a comma or a colon.
proof fn lemma_toks_of_head(v: SpecValue)
    ensures
        toks_of(v).len() >= 1,
        !(toks_of(v)[0] is SquareClose),
        !(toks_of(v)[0] is CurlyClose),
        !(toks_of(v)[0] is Comma),
        !(toks_of(v)[0] is Colon),
{
}

/// Parsing a value's tokens, whatever follows them, returns exactly the
/// value and consumes exactly its tokens.
proof fn lemma_parse_value_toks(v: SpecValue, ts: Seq<SpecToken>)
    requires
        rt_safe(v),
    ensures
        parse_value_at(toks_of(v) + ts) == Ok::<_, SpecParseError>(
            (v, toks_of(v).len() as int),
        ),
    decreases v, 0int,
{
    let full = toks_of(v) + ts;
    lemma_value_at_step(full);
    assert(full[0] == toks_of(v)[0]);
    match v {
        SpecValue::Null => {},
        SpecValue::Bool(b) => {},
        SpecValue::Num(d) => {},
        SpecValue::Str(body) => {},
        SpecValue::Array(elems) => {
            assert(full.skip(1) =~= toks_of_list(elems) + seq![SpecToken::SquareClose] + ts);
            lemma_parse_items(elems, Seq::empty(), ts);
            assert(Seq::<SpecValue>::empty() + elems =~= elems);
            assert(parse_value_at(full) == bump_r(
                parse_array_at(full.skip(1), Seq::empty()),
                1,
            ));
        },
        SpecValue::Object(fields) => {
            assert(fields =~= Seq::<(Seq<char>, SpecValue)>::empty());
            assert(full.skip(1) =~= seq![SpecToken::CurlyClose] + ts);
            lemma_object_at_step(full.skip(1), Seq::empty());
            assert(full.skip(1)[0] is CurlyClose);
            assert(parse_value_at(full) == bump_r(
                parse_object_at(full.skip(1), Seq::empty()),
                1,
            ));
        },
    }
}

/// Parsing rendered array elements followed by the closing bracket extends
/// the elements built so far by exactly those elements.
proof fn lemma_parse_items(elems: Seq<SpecValue>, acc: Seq<SpecValue>, ts: Seq<SpecToken>)
    requires
        rt_safe_list(elems),
    ensures
        parse_array_at(toks_of_list(elems) + seq![SpecToken::SquareClose] + ts, acc) == Ok::<
            _,
            SpecParseError,
        >((SpecValue::Array(acc + elems), toks_of_list(elems).len() + 1 as int)),
    decreases elems, 1int,
{
    let full = toks_of_list(elems) + seq![SpecToken::SquareClose] + ts;
    lemma_array_at_step(full, acc);
    if elems.len() == 0 {
        assert(full[0] is SquareClose);
        assert(acc + elems =~= acc);
    } else {
        let e0 = elems[0];
        let d = elems.drop_first();
        lemma_toks_of_head(e0);
        assert(full[0] == toks_of(e0)[0]);
        assert(!(full[0] is SquareClose));
        let tail0 = seq![SpecToken::Comma] + toks_of_list(d) + seq![SpecToken::SquareClose] + ts;
        assert(full =~= toks_of(e0) + tail0);
        lemma_parse_value_toks(e0, tail0);
        let n0 = toks_of(e0).len() as int;
        let rest = full.skip(n0);
        assert(rest =~= tail0);
        assert(rest[0] is Comma);
        assert(rest.skip(1) =~= toks_of_list(d) + seq![SpecToken::SquareClose] + ts);
        lemma_parse_items(d, acc.push(e0), ts);
        assert(acc.push(e0) + d =~= acc + elems);
        assert(toks_of_list(elems).len() == n0 + 1 + toks_of_list(d).len());
    }
}

/// THE ROUND-TRIP LAW.  For every value whose number texts are nonempty
/// decimal digit runs, whose strings contain no `"`, and whose objects are
/// empty: rendering it and scanning the text gives exactly its token
/// sequence, and parsing that token sequence gives back exactly the value —
/// `parse(scan(render(v))) == v`.
pub proof fn lemma_round_trip(v: SpecValue)
    requires
        rt_safe(v),
    ensures
        scan_spec(render_spec(v, Seq::empty())) == Ok::<_, SpecLexError>(toks_of(v)),
        parse_spec(toks_of(v)) == Ok::<_, SpecParseError>(v),
        decode_and_render_spec(render_spec(v, Seq::empty())) == Ok::<_, SpecPipelineError>(
            render_spec(v, Seq::empty()),
        ),
{
    let doc = render_spec(v, Seq::empty());
    assert(doc.subrange(0, doc.len() as int) =~= doc);
    lemma_scan_value(v, Seq::empty(), doc, 0);
    assert(scan_from(doc, doc.len() as int) == Ok::<_, SpecLexError>(Seq::<SpecToken>::empty()));
    assert(toks_of(v) + Seq::<SpecToken>::empty() =~= toks_of(v));
    lemma_parse_value_toks(v, Seq::empty());
}

} // verus!
