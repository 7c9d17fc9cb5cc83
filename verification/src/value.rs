//! The value model shared by the scanner, the parser and the renderer: the
//! token vocabulary, the JSON value tree, and the two error taxonomies, each
//! with a mathematical model (`Spec...`) that the contracts speak of.

use vstd::prelude::*;

verus! {

broadcast use
    vstd::std_specs::vec::axiom_vec_decreases_to_view,
    vstd::seq::axiom_seq_index_decreases;

/// A lexical unit produced by the scanner.  Tokens carry no position
/// information; number literals keep their source digit text verbatim.
#[derive(Debug)]
pub enum Token {
    CurlyOpen,
    CurlyClose,
    SquareOpen,
    SquareClose,
    Colon,
    Comma,
    Null,
    Str(String),
    Num(String),
    Bool(bool),
}

/// The mathematical model of a token: text payloads become `Seq<char>`.
pub enum SpecToken {
    CurlyOpen,
    CurlyClose,
    SquareOpen,
    SquareClose,
    Colon,
    Comma,
    Null,
    Str(Seq<char>),
    Num(Seq<char>),
    Bool(bool),
}

impl View for Token {
    type V = SpecToken;

    open spec fn view(&self) -> SpecToken {
        match self {
            Token::CurlyOpen => SpecToken::CurlyOpen,
            Token::CurlyClose => SpecToken::CurlyClose,
            Token::SquareOpen => SpecToken::SquareOpen,
            Token::SquareClose => SpecToken::SquareClose,
            Token::Colon => SpecToken::Colon,
            Token::Comma => SpecToken::Comma,
            Token::Null => SpecToken::Null,
            Token::Str(s) => SpecToken::Str(s@),
            Token::Num(s) => SpecToken::Num(s@),
            Token::Bool(b) => SpecToken::Bool(*b),
        }
    }
}

/// A decoded JSON value.  An object is an ordered sequence of key/value
/// pairs with unique keys; a repeated key in the source overwrites the value
/// at the key's first position.  Numbers are the source digit text.
#[derive(Debug)]
pub enum JsonValue {
    Null,
    Bool(bool),
    Num(String),
    Str(String),
    Array(Vec<JsonValue>),
    Object(Vec<(String, JsonValue)>),
}

/// The mathematical model of a value tree.
pub enum SpecValue {
    Null,
    Bool(bool),
    Num(Seq<char>),
    Str(Seq<char>),
    Array(Seq<SpecValue>),
    Object(Seq<(Seq<char>, SpecValue)>),
}

impl JsonValue {
    /// The model of this value: every text payload becomes a `Seq<char>` and
    /// every `Vec` becomes a `Seq`.
    pub open spec fn deep(&self) -> SpecValue
        decreases self, 0int,
    {
        match self {
            JsonValue::Null => SpecValue::Null,
            JsonValue::Bool(b) => SpecValue::Bool(*b),
            JsonValue::Num(s) => SpecValue::Num(s@),
            JsonValue::Str(s) => SpecValue::Str(s@),
            JsonValue::Array(a) => SpecValue::Array(deep_elems(a, 0)),
            JsonValue::Object(o) => SpecValue::Object(deep_pairs(o, 0)),
        }
    }
}

/// The models of the elements of `a` from index `i` on.
pub open spec fn deep_elems(a: &Vec<JsonValue>, i: int) -> Seq<SpecValue>
    decreases a, a.len() - i,
    via deep_elems_decreases
{
    if i < 0 || i >= a.len() {
        Seq::empty()
    } else {
        seq![a[i].deep()] + deep_elems(a, i + 1)
    }
}

#[via_fn]
proof fn deep_elems_decreases(a: &Vec<JsonValue>, i: int) {
    if 0 <= i < a.len() {
        assert(decreases_to!(a => a[i]));
    }
}

/// The models of the key/value pairs of `o` from index `i` on.
pub open spec fn deep_pairs(o: &Vec<(String, JsonValue)>, i: int) -> Seq<(Seq<char>, SpecValue)>
    decreases o, o.len() - i,
    via deep_pairs_decreases
{
    if i < 0 || i >= o.len() {
        Seq::empty()
    } else {
        seq![(o[i].0@, o[i].1.deep())] + deep_pairs(o, i + 1)
    }
}

#[via_fn]
proof fn deep_pairs_decreases(o: &Vec<(String, JsonValue)>, i: int) {
    if 0 <= i < o.len() {
        assert(decreases_to!(o => o[i]));
        assert(decreases_to!(o[i] => o[i].1));
    }
}

impl View for JsonValue {
    type V = SpecValue;

    open spec fn view(&self) -> SpecValue {
        self.deep()
    }
}

/// The models of a sequence of values.
pub open spec fn elems_view(s: Seq<JsonValue>) -> Seq<SpecValue> {
    Seq::new(s.len(), |i: int| s[i].deep())
}

/// The models of a sequence of key/value pairs.
pub open spec fn pairs_view(m: Seq<(String, JsonValue)>) -> Seq<(Seq<char>, SpecValue)> {
    Seq::new(m.len(), |i: int| (m[i].0@, m[i].1.deep()))
}

proof fn lemma_deep_elems_view(a: &Vec<JsonValue>, i: int)
    requires
        0 <= i <= a.len(),
    ensures
        deep_elems(a, i) == elems_view(a@.skip(i)),
    decreases a.len() - i,
{
    if i == a.len() {
        assert(deep_elems(a, i) =~= elems_view(a@.skip(i)));
    } else {
        lemma_deep_elems_view(a, i + 1);
        assert(deep_elems(a, i) =~= elems_view(a@.skip(i)));
    }
}

proof fn lemma_deep_pairs_view(o: &Vec<(String, JsonValue)>, i: int)
    requires
        0 <= i <= o.len(),
    ensures
        deep_pairs(o, i) == pairs_view(o@.skip(i)),
    decreases o.len() - i,
{
    if i == o.len() {
        assert(deep_pairs(o, i) =~= pairs_view(o@.skip(i)));
    } else {
        lemma_deep_pairs_view(o, i + 1);
        assert(deep_pairs(o, i) =~= pairs_view(o@.skip(i)));
    }
}

/// The model of an array value is the sequence of its elements' models.
pub proof fn lemma_array_deep(a: &Vec<JsonValue>)
    ensures
        (JsonValue::Array(*a)).deep() == SpecValue::Array(elems_view(a@)),
{
    lemma_deep_elems_view(a, 0);
    assert(a@.skip(0) =~= a@);
}

/// The model of an object value is the sequence of its pairs' models.
pub proof fn lemma_object_deep(o: &Vec<(String, JsonValue)>)
    ensures
        (JsonValue::Object(*o)).deep() == SpecValue::Object(pairs_view(o@)),
{
    lemma_deep_pairs_view(o, 0);
    assert(o@.skip(0) =~= o@);
}

} // verus!
