//! The renderer: prints a value tree back as indented text, one additional
//! tab per nesting depth.  Instead of an indentation counter it passes the
//! indentation text itself down the tree, so no arithmetic is involved.
//!
//! Strings are emitted between quotes with no escaping, and object keys are
//! emitted bare: text containing quotes or keys in general therefore do not
//! survive a round trip through the scanner; see the round-trip law for the
//! exact boundary.

use vstd::prelude::*;
use vstd::string::StrSliceExecFns;
use vstd::string::StringExecFns;
use crate::tokenizer::{word_false, word_null, word_true};
use crate::value::{elems_view, lemma_array_deep, lemma_object_deep, pairs_view, JsonValue, SpecValue};

verus! {

broadcast use
    vstd::std_specs::vec::axiom_vec_decreases_to_view,
    vstd::seq::axiom_seq_index_decreases,
    vstd::seq::axiom_seq_subrange_decreases;

/// The text of one rendered array element at indentation `pad`: a line
/// break, one more tab of indentation, the element, a trailing comma.
pub open spec fn item_text(v: SpecValue, pad: Seq<char>) -> Seq<char>
    decreases v, 1int,
{
    seq!['\n', '\t'] + pad + render_spec(v, pad.push('\t')) + seq![',']
}

/// The text of one rendered object entry at indentation `pad`: a line
/// break, one more tab, the bare key, a colon and a space, the value, a
/// trailing comma.
pub open spec fn entry_text(k: Seq<char>, v: SpecValue, pad: Seq<char>) -> Seq<char>
    decreases v, 1int,
{
    seq!['\n', '\t'] + pad + k + seq![':', ' '] + render_spec(v, pad.push('\t')) + seq![',']
}

/// The rendered elements of an array, in order.
pub open spec fn items_text(elems: Seq<SpecValue>, pad: Seq<char>) -> Seq<char>
    decreases elems, 2int,
{
    if elems.len() == 0 {
        Seq::empty()
    } else {
        item_text(elems[0], pad) + items_text(elems.drop_first(), pad)
    }
}

/// The rendered entries of an object, in order.
pub open spec fn entries_text(fields: Seq<(Seq<char>, SpecValue)>, pad: Seq<char>) -> Seq<char>
    decreases fields, 2int,
    via entries_text_decreases
{
    if fields.len() == 0 {
        Seq::empty()
    } else {
        entry_text(fields[0].0, fields[0].1, pad) + entries_text(fields.drop_first(), pad)
    }
}

#[via_fn]
proof fn entries_text_decreases(fields: Seq<(Seq<char>, SpecValue)>, pad: Seq<char>) {
    if fields.len() > 0 {
        assert(decreases_to!(fields => fields[0]));
        assert(decreases_to!(fields[0] => fields[0].1));
    }
}

/// The text that rendering `v` at indentation `pad` produces.
pub open spec fn render_spec(v: SpecValue, pad: Seq<char>) -> Seq<char>
    decreases v, 0int,
{
    match v {
        SpecValue::Null => word_null(),
        SpecValue::Bool(b) => if b {
            word_true()
        } else {
            word_false()
        },
        SpecValue::Num(d) => d,
        SpecValue::Str(s) => seq!['"'] + s + seq!['"'],
        SpecValue::Array(elems) => seq!['['] + items_text(elems, pad) + seq!['\n'] + pad + seq![
            ']',
        ],
        SpecValue::Object(fields) => seq!['{'] + entries_text(fields, pad) + seq!['\n'] + pad
            + seq!['}'],
    }
}

/// Splitting the elements: the text of the first `i + 1` elements is the
/// text of the first `i` followed by the text of element `i`.
proof fn lemma_items_text_take(elems: Seq<SpecValue>, pad: Seq<char>, i: int)
    requires
        0 <= i < elems.len(),
    ensures
        items_text(elems.take(i + 1), pad) == items_text(elems.take(i), pad) + item_text(
            elems[i],
            pad,
        ),
    decreases i,
{
    if i == 0 {
        reveal_with_fuel(items_text, 2);
        assert(elems.take(1) =~= seq![elems[0]]);
        assert(elems.take(1).drop_first() =~= Seq::<SpecValue>::empty());
        assert(items_text(elems.take(0), pad) =~= Seq::<char>::empty());
        assert(items_text(elems.take(1), pad) =~= item_text(elems[0], pad));
        assert(items_text(elems.take(0), pad) + item_text(elems[0], pad) =~= item_text(
            elems[0],
            pad,
        ));
    } else {
        let d = elems.drop_first();
        lemma_items_text_take(d, pad, i - 1);
        assert(elems.take(i + 1).drop_first() =~= d.take(i));
        assert(elems.take(i).drop_first() =~= d.take(i - 1));
        assert(elems.take(i + 1)[0] == elems[0]);
        assert(d[i - 1] == elems[i]);
        assert(items_text(elems.take(i + 1), pad) == item_text(elems[0], pad) + (items_text(
            d.take(i - 1),
            pad,
        ) + item_text(elems[i], pad)));
        assert(item_text(elems[0], pad) + (items_text(d.take(i - 1), pad) + item_text(
            elems[i],
            pad,
        )) =~= (item_text(elems[0], pad) + items_text(d.take(i - 1), pad)) + item_text(
            elems[i],
            pad,
        ));
    }
}

/// The same split for object entries.
proof fn lemma_entries_text_take(fields: Seq<(Seq<char>, SpecValue)>, pad: Seq<char>, i: int)
    requires
        0 <= i < fields.len(),
    ensures
        entries_text(fields.take(i + 1), pad) == entries_text(fields.take(i), pad) + entry_text(
            fields[i].0,
            fields[i].1,
            pad,
        ),
    decreases i,
{
    if i == 0 {
        reveal_with_fuel(entries_text, 2);
        assert(fields.take(1) =~= seq![fields[0]]);
        assert(fields.take(1).drop_first() =~= Seq::<(Seq<char>, SpecValue)>::empty());
        assert(entries_text(fields.take(0), pad) =~= Seq::<char>::empty());
        assert(entries_text(fields.take(1), pad) =~= entry_text(fields[0].0, fields[0].1, pad));
        assert(entries_text(fields.take(0), pad) + entry_text(fields[0].0, fields[0].1, pad)
            =~= entry_text(fields[0].0, fields[0].1, pad));
    } else {
        let d = fields.drop_first();
        lemma_entries_text_take(d, pad, i - 1);
        assert(fields.take(i + 1).drop_first() =~= d.take(i));
        assert(fields.take(i).drop_first() =~= d.take(i - 1));
        assert(fields.take(i + 1)[0] == fields[0]);
        assert(d[i - 1] == fields[i]);
        assert(entries_text(fields.take(i + 1), pad) == entry_text(fields[0].0, fields[0].1, pad)
            + (entries_text(d.take(i - 1), pad) + entry_text(fields[i].0, fields[i].1, pad)));
        assert(entry_text(fields[0].0, fields[0].1, pad) + (entries_text(d.take(i - 1), pad)
            + entry_text(fields[i].0, fields[i].1, pad)) =~= (entry_text(
            fields[0].0,
            fields[0].1,
            pad,
        ) + entries_text(d.take(i - 1), pad)) + entry_text(fields[i].0, fields[i].1, pad));
    }
}

/// Appends the rendering of `v` at indentation `pad` to `out`.
#[verifier::loop_isolation(false)]
fn render_with_indent(v: &JsonValue, pad: &str, out: &mut String)
    ensures
        final(out)@ == old(out)@ + render_spec(v.deep(), pad@),
    decreases v,
{
    match v {
        JsonValue::Null => {
            proof {
                reveal_strlit("null");
                assert("null"@ =~= word_null());
            }
            out.append("null");
        },
        JsonValue::Bool(b) => {
            if *b {
                proof {
                    reveal_strlit("true");
                    assert("true"@ =~= word_true());
                }
                out.append("true");
            } else {
                proof {
                    reveal_strlit("false");
                    assert("false"@ =~= word_false());
                }
                out.append("false");
            }
        },
        JsonValue::Num(d) => {
            out.append(d.as_str());
        },
        JsonValue::Str(s) => {
            proof {
                reveal_strlit("\"");
                assert("\""@ =~= seq!['"']);
            }
            out.append("\"");
            out.append(s.as_str());
            out.append("\"");
            proof {
                assert(old(out)@ + seq!['"'] + s@ + seq!['"'] =~= old(out)@ + (seq!['"'] + s@
                    + seq!['"']));
            }
        },
        JsonValue::Array(a) => {
            proof {
                lemma_array_deep(a);
                reveal_strlit("[");
                reveal_strlit("]");
                reveal_strlit("\n");
                reveal_strlit("\t");
                assert("["@ =~= seq!['[']);
                assert("]"@ =~= seq![']']);
                assert("\n"@ =~= seq!['\n']);
                assert("\t"@ =~= seq!['\t']);
            }
            let ghost ev = elems_view(a@);
            out.append("[");
            let mut child_pad = pad.to_owned();
            child_pad.append("\t");
            proof {
                assert(child_pad@ =~= pad@.push('\t'));
            }
            let mut i: usize = 0;
            proof {
                assert(items_text(ev.take(0), pad@) =~= Seq::<char>::empty());
                assert(out@ =~= old(out)@ + seq!['['] + items_text(ev.take(0), pad@));
            }
            while i < a.len()
                invariant
                    i <= a@.len(),
                    ev == elems_view(a@),
                    child_pad@ == pad@.push('\t'),
                    out@ == old(out)@ + seq!['['] + items_text(ev.take(i as int), pad@),
                decreases a@.len() - i,
            {
                proof {
                    assert(decreases_to!(a@ => a@[i as int]));
                    assert(decreases_to!(*a => a@));
                    assert(decreases_to!(*v => *a));
                }
                out.append("\n");
                out.append("\t");
                out.append(pad);
                render_with_indent(&a[i], child_pad.as_str(), out);
                out.append(",");
                proof {
                    reveal_strlit(",");
                    assert(","@ =~= seq![',']);
                    lemma_items_text_take(ev, pad@, i as int);
                    assert(ev[i as int] == a@[i as int].deep());
                    assert(out@ =~= old(out)@ + seq!['['] + items_text(ev.take(i as int), pad@)
                        + item_text(ev[i as int], pad@));
                    assert(out@ =~= old(out)@ + seq!['['] + items_text(ev.take(i as int + 1), pad@));
                }
                i += 1;
            }
            proof {
                assert(ev.take(a@.len() as int) =~= ev);
            }
            out.append("\n");
            out.append(pad);
            out.append("]");
            proof {
                assert(out@ =~= old(out)@ + (seq!['['] + items_text(ev, pad@) + seq!['\n'] + pad@
                    + seq![']']));
            }
        },
        JsonValue::Object(o) => {
            proof {
                lemma_object_deep(o);
                reveal_strlit("{");
                reveal_strlit("}");
                reveal_strlit("\n");
                reveal_strlit("\t");
                reveal_strlit(": ");
                assert("{"@ =~= seq!['{']);
                assert("}"@ =~= seq!['}']);
                assert("\n"@ =~= seq!['\n']);
                assert("\t"@ =~= seq!['\t']);
                assert(": "@ =~= seq![':', ' ']);
            }
            let ghost fv = pairs_view(o@);
            out.append("{");
            let mut child_pad = pad.to_owned();
            child_pad.append("\t");
            proof {
                assert(child_pad@ =~= pad@.push('\t'));
            }
            let mut i: usize = 0;
            proof {
                assert(entries_text(fv.take(0), pad@) =~= Seq::<char>::empty());
                assert(out@ =~= old(out)@ + seq!['{'] + entries_text(fv.take(0), pad@));
            }
            while i < o.len()
                invariant
                    i <= o@.len(),
                    fv == pairs_view(o@),
                    child_pad@ == pad@.push('\t'),
                    out@ == old(out)@ + seq!['{'] + entries_text(fv.take(i as int), pad@),
                decreases o@.len() - i,
            {
                proof {
                    assert(decreases_to!(o@ => o@[i as int]));
                    assert(decreases_to!(o@[i as int] => o@[i as int].1));
                    assert(decreases_to!(*o => o@));
                    assert(decreases_to!(*v => *o));
                }
                out.append("\n");
                out.append("\t");
                out.append(pad);
                let entry = &o[i];
                out.append(entry.0.as_str());
                out.append(": ");
                render_with_indent(&entry.1, child_pad.as_str(), out);
                out.append(",");
                proof {
                    reveal_strlit(",");
                    assert(","@ =~= seq![',']);
                    lemma_entries_text_take(fv, pad@, i as int);
                    assert(fv[i as int] == (o@[i as int].0@, o@[i as int].1.deep()));
                    assert(out@ =~= old(out)@ + seq!['{'] + entries_text(fv.take(i as int), pad@)
                        + entry_text(fv[i as int].0, fv[i as int].1, pad@));
                    assert(out@ =~= old(out)@ + seq!['{'] + entries_text(fv.take(i as int + 1), pad@));
                }
                i += 1;
            }
            proof {
                assert(fv.take(o@.len() as int) =~= fv);
            }
            out.append("\n");
            out.append(pad);
            out.append("}");
            proof {
                assert(out@ =~= old(out)@ + (seq!['{'] + entries_text(fv, pad@) + seq!['\n'] + pad@
                    + seq!['}']));
            }
        },
    }
}

/// Renders the value tree as indented text: `null`, `true`/`false`, the
/// number's digit text, quoted unescaped strings, and bracketed blocks with
/// one element or entry per line, one more tab per nesting depth, each
/// followed by a trailing comma.
pub fn render(v: &JsonValue) -> (r: String)
    ensures
        r@ == render_spec(v.deep(), Seq::empty()),
{
    let mut out = String::new();
    proof {
        reveal_strlit("");
        assert(""@ =~= Seq::<char>::empty());
    }
    render_with_indent(v, "", &mut out);
    out
}

} // verus!
