//! The recursive-descent parser: consumes a token sequence strictly left to
//! right with one token of lookahead and builds a value tree, enforcing the
//! grammar (balanced braces and brackets, key/value pairing, comma
//! separation, with trailing commas tolerated).
//!
//! The mathematical description is given by `pv_value` / `pv_array` /
//! `pv_object`, recursive functions driven by a fuel argument; `2*len + 2`
//! units are proved sufficient for a token sequence of length `len`, which
//! lets `parse_value_at` and its companions stand as total descriptions that
//! the executable parser is proved against.

use vstd::prelude::*;
use vstd::pervasive::arbitrary;
use crate::value::{elems_view, lemma_array_deep, lemma_object_deep, pairs_view, JsonValue, SpecToken, SpecValue, Token};
use crate::tokenizer::toks_view;

verus! {

/// Where in the grammar the parser stood when it failed.
#[derive(Clone, Copy, PartialEq, Eq, Structural, Debug)]
pub enum ParseContext {
    /// Expecting a value.
    Value,
    /// Expecting a comma or a closing bracket after an array element.
    Array,
    /// Expecting the colon of a key/value pair.
    ObjectPair,
    /// Expecting a comma or a closing brace after a key/value pair.
    ObjectPairEnd,
    /// Expecting a key or a closing brace.
    ObjectKey,
}

/// A syntactic failure.  Parsing stops at the first one.
#[derive(Debug)]
pub enum ParseError {
    /// A token that no production accepts here.
    UnexpectedToken { found: Token, context: ParseContext },
    /// The token sequence ended inside a production that needed more.
    UnexpectedEof { context: ParseContext },
    /// A key was not followed by a colon.
    ExpectedColon { found: Token },
    /// An element or entry was not followed by a comma or the closing
    /// bracket or brace.
    ExpectedCommaOrClose { found: Token },
}

/// The mathematical model of a syntactic failure.
pub enum SpecParseError {
    UnexpectedToken { found: SpecToken, context: ParseContext },
    UnexpectedEof { context: ParseContext },
    ExpectedColon { found: SpecToken },
    ExpectedCommaOrClose { found: SpecToken },
}

impl View for ParseError {
    type V = SpecParseError;

    open spec fn view(&self) -> SpecParseError {
        match self {
            ParseError::UnexpectedToken { found, context } => SpecParseError::UnexpectedToken {
                found: found@,
                context: *context,
            },
            ParseError::UnexpectedEof { context } => SpecParseError::UnexpectedEof {
                context: *context,
            },
            ParseError::ExpectedColon { found } => SpecParseError::ExpectedColon { found: found@ },
            ParseError::ExpectedCommaOrClose { found } => SpecParseError::ExpectedCommaOrClose {
                found: found@,
            },
        }
    }
}

/// The index of the first pair of `m` whose key is `k`, or `m.len()` if no
/// pair has that key.
pub open spec fn key_index(m: Seq<(Seq<char>, SpecValue)>, k: Seq<char>) -> int
    decreases m.len(),
{
    if m.len() == 0 {
        0
    } else if m[0].0 == k {
        0
    } else {
        1 + key_index(m.drop_first(), k)
    }
}

/// Inserting into an object mapping: a repeated key overwrites the value at
/// the key's first position, a new key goes to the end.
pub open spec fn upsert(
    m: Seq<(Seq<char>, SpecValue)>,
    k: Seq<char>,
    v: SpecValue,
) -> Seq<(Seq<char>, SpecValue)> {
    if key_index(m, k) < m.len() {
        m.update(key_index(m, k), (k, v))
    } else {
        m.push((k, v))
    }
}

pub proof fn lemma_key_index(m: Seq<(Seq<char>, SpecValue)>, k: Seq<char>)
    ensures
        0 <= key_index(m, k) <= m.len(),
        key_index(m, k) < m.len() ==> m[key_index(m, k)].0 == k,
        forall|j: int| 0 <= j < key_index(m, k) ==> m[j].0 != k,
    decreases m.len(),
{
    if m.len() > 0 && m[0].0 != k {
        lemma_key_index(m.drop_first(), k);
        assert forall|j: int| 0 <= j < key_index(m, k) implies m[j].0 != k by {
            if j > 0 {
                assert(m.drop_first()[j - 1] == m[j]);
            }
        }
    }
}

/// A parse outcome: the value built and the number of tokens consumed, or
/// the first failure.  `None` stands for exhausted fuel.
pub open spec fn bump(
    r: Option<Result<(SpecValue, int), SpecParseError>>,
    k: int,
) -> Option<Result<(SpecValue, int), SpecParseError>> {
    match r {
        Some(Ok((v, n))) => Some(Ok((v, n + k))),
        Some(Err(e)) => Some(Err(e)),
        None => None,
    }
}

/// Adds already-consumed tokens to a total parse outcome.
pub open spec fn bump_r(
    r: Result<(SpecValue, int), SpecParseError>,
    k: int,
) -> Result<(SpecValue, int), SpecParseError> {
    match r {
        Ok((v, n)) => Ok((v, n + k)),
        Err(e) => Err(e),
    }
}

/// One value: the first token decides the production.
pub open spec fn pv_value(ts: Seq<SpecToken>, fuel: nat) -> Option<
    Result<(SpecValue, int), SpecParseError>,
>
    decreases fuel,
{
    if fuel == 0 {
        None
    } else if ts.len() == 0 {
        Some(Err(SpecParseError::UnexpectedEof { context: ParseContext::Value }))
    } else {
        match ts[0] {
            SpecToken::CurlyOpen => bump(
                pv_object(ts.skip(1), Seq::empty(), (fuel - 1) as nat),
                1,
            ),
            SpecToken::SquareOpen => bump(
                pv_array(ts.skip(1), Seq::empty(), (fuel - 1) as nat),
                1,
            ),
            SpecToken::Str(s) => Some(Ok((SpecValue::Str(s), 1))),
            SpecToken::Bool(b) => Some(Ok((SpecValue::Bool(b), 1))),
            SpecToken::Num(n) => Some(Ok((SpecValue::Num(n), 1))),
            SpecToken::Null => Some(Ok((SpecValue::Null, 1))),
            _ => Some(
                Err(
                    SpecParseError::UnexpectedToken {
                        found: ts[0],
                        context: ParseContext::Value,
                    },
                ),
            ),
        }
    }
}

/// Array elements, entered just after the opening bracket, `acc` holding the
/// elements already built.  The end of the token sequence ends the array
/// silently, mirroring the loop shape of the parser.
pub open spec fn pv_array(ts: Seq<SpecToken>, acc: Seq<SpecValue>, fuel: nat) -> Option<
    Result<(SpecValue, int), SpecParseError>,
>
    decreases fuel,
{
    if fuel == 0 {
        None
    } else if ts.len() == 0 {
        Some(Ok((SpecValue::Array(acc), 0)))
    } else if ts[0] is SquareClose {
        Some(Ok((SpecValue::Array(acc), 1)))
    } else {
        match pv_value(ts, (fuel - 1) as nat) {
            None => None,
            Some(Err(e)) => Some(Err(e)),
            Some(Ok((v, n))) => {
                let rest = ts.skip(n);
                if rest.len() == 0 {
                    Some(Err(SpecParseError::UnexpectedEof { context: ParseContext::Array }))
                } else if rest[0] is Comma {
                    bump(pv_array(rest.skip(1), acc.push(v), (fuel - 1) as nat), n + 1)
                } else if rest[0] is SquareClose {
                    bump(pv_array(rest, acc.push(v), (fuel - 1) as nat), n)
                } else {
                    Some(Err(SpecParseError::ExpectedCommaOrClose { found: rest[0] }))
                }
            },
        }
    }
}

/// Object entries, entered just after the opening brace, `acc` holding the
/// pairs already built.
pub open spec fn pv_object(
    ts: Seq<SpecToken>,
    acc: Seq<(Seq<char>, SpecValue)>,
    fuel: nat,
) -> Option<Result<(SpecValue, int), SpecParseError>>
    decreases fuel,
{
    if fuel == 0 {
        None
    } else if ts.len() == 0 {
        Some(Ok((SpecValue::Object(acc), 0)))
    } else {
        match ts[0] {
            SpecToken::CurlyClose => Some(Ok((SpecValue::Object(acc), 1))),
            SpecToken::Str(k) => {
                if ts.len() == 1 {
                    Some(Err(SpecParseError::UnexpectedEof { context: ParseContext::ObjectPair }))
                } else if !(ts[1] is Colon) {
                    Some(Err(SpecParseError::ExpectedColon { found: ts[1] }))
                } else {
                    match pv_value(ts.skip(2), (fuel - 1) as nat) {
                        None => None,
                        Some(Err(e)) => Some(Err(e)),
                        Some(Ok((v, n))) => {
                            let acc2 = upsert(acc, k, v);
                            let rest = ts.skip(2 + n);
                            if rest.len() == 0 {
                                Some(
                                    Err(
                                        SpecParseError::UnexpectedEof {
                                            context: ParseContext::ObjectPairEnd,
                                        },
                                    ),
                                )
                            } else if rest[0] is CurlyClose {
                                bump(pv_object(rest, acc2, (fuel - 1) as nat), 2 + n)
                            } else if rest[0] is Comma {
                                bump(pv_object(rest.skip(1), acc2, (fuel - 1) as nat), 3 + n)
                            } else {
                                Some(
                                    Err(
                                        SpecParseError::ExpectedCommaOrClose { found: rest[0] },
                                    ),
                                )
                            }
                        },
                    }
                }
            },
            _ => Some(
                Err(
                    SpecParseError::UnexpectedToken {
                        found: ts[0],
                        context: ParseContext::ObjectKey,
                    },
                ),
            ),
        }
    }
}

/// A successful parse of one value consumes between one token and the whole
/// sequence.
proof fn lemma_pv_value_n(ts: Seq<SpecToken>, fuel: nat)
    ensures
        match pv_value(ts, fuel) {
            Some(Ok((v, n))) => 1 <= n <= ts.len(),
            _ => true,
        },
    decreases fuel, 0int,
{
    if fuel > 0 && ts.len() > 0 {
        match ts[0] {
            SpecToken::CurlyOpen => {
                lemma_pv_object_n(ts.skip(1), Seq::empty(), (fuel - 1) as nat);
            },
            SpecToken::SquareOpen => {
                lemma_pv_array_n(ts.skip(1), Seq::empty(), (fuel - 1) as nat);
            },
            _ => {},
        }
    }
}

proof fn lemma_pv_array_n(ts: Seq<SpecToken>, acc: Seq<SpecValue>, fuel: nat)
    ensures
        match pv_array(ts, acc, fuel) {
            Some(Ok((v, n))) => 0 <= n <= ts.len(),
            _ => true,
        },
    decreases fuel, 1int,
{
    if fuel > 0 && ts.len() > 0 && !(ts[0] is SquareClose) {
        lemma_pv_value_n(ts, (fuel - 1) as nat);
        match pv_value(ts, (fuel - 1) as nat) {
            Some(Ok((v, n))) => {
                let rest = ts.skip(n);
                if rest.len() > 0 && rest[0] is Comma {
                    lemma_pv_array_n(rest.skip(1), acc.push(v), (fuel - 1) as nat);
                } else if rest.len() > 0 && rest[0] is SquareClose {
                    lemma_pv_array_n(rest, acc.push(v), (fuel - 1) as nat);
                }
            },
            _ => {},
        }
    }
}

proof fn lemma_pv_object_n(ts: Seq<SpecToken>, acc: Seq<(Seq<char>, SpecValue)>, fuel: nat)
    ensures
        match pv_object(ts, acc, fuel) {
            Some(Ok((v, n))) => 0 <= n <= ts.len(),
            _ => true,
        },
    decreases fuel, 1int,
{
    if fuel > 0 && ts.len() > 1 && ts[0] is Str && ts[1] is Colon {
        let k = ts[0]->Str_0;
        lemma_pv_value_n(ts.skip(2), (fuel - 1) as nat);
        match pv_value(ts.skip(2), (fuel - 1) as nat) {
            Some(Ok((v, n))) => {
                let acc2 = upsert(acc, k, v);
                let rest = ts.skip(2 + n);
                if rest.len() > 0 && rest[0] is CurlyClose {
                    lemma_pv_object_n(rest, acc2, (fuel - 1) as nat);
                } else if rest.len() > 0 && rest[0] is Comma {
                    lemma_pv_object_n(rest.skip(1), acc2, (fuel - 1) as nat);
                }
            },
            _ => {},
        }
    }
}

/// More fuel never changes a parse outcome that was reached.
proof fn lemma_pv_value_mono(ts: Seq<SpecToken>, f1: nat, f2: nat)
    requires
        f1 <= f2,
        pv_value(ts, f1) is Some,
    ensures
        pv_value(ts, f2) == pv_value(ts, f1),
    decreases f1, 0int,
{
    if ts.len() > 0 {
        match ts[0] {
            SpecToken::CurlyOpen => {
                lemma_pv_object_mono(ts.skip(1), Seq::empty(), (f1 - 1) as nat, (f2 - 1) as nat);
            },
            SpecToken::SquareOpen => {
                lemma_pv_array_mono(ts.skip(1), Seq::empty(), (f1 - 1) as nat, (f2 - 1) as nat);
            },
            _ => {},
        }
    }
}

proof fn lemma_pv_array_mono(ts: Seq<SpecToken>, acc: Seq<SpecValue>, f1: nat, f2: nat)
    requires
        f1 <= f2,
        pv_array(ts, acc, f1) is Some,
    ensures
        pv_array(ts, acc, f2) == pv_array(ts, acc, f1),
    decreases f1, 1int,
{
    if ts.len() > 0 && !(ts[0] is SquareClose) {
        lemma_pv_value_mono(ts, (f1 - 1) as nat, (f2 - 1) as nat);
        match pv_value(ts, (f1 - 1) as nat) {
            Some(Ok((v, n))) => {
                let rest = ts.skip(n);
                if rest.len() > 0 && rest[0] is Comma {
                    lemma_pv_array_mono(rest.skip(1), acc.push(v), (f1 - 1) as nat, (f2 - 1) as nat);
                } else if rest.len() > 0 && rest[0] is SquareClose {
                    lemma_pv_array_mono(rest, acc.push(v), (f1 - 1) as nat, (f2 - 1) as nat);
                }
            },
            _ => {},
        }
    }
}

proof fn lemma_pv_object_mono(ts: Seq<SpecToken>, acc: Seq<(Seq<char>, SpecValue)>, f1: nat, f2: nat)
    requires
        f1 <= f2,
        pv_object(ts, acc, f1) is Some,
    ensures
        pv_object(ts, acc, f2) == pv_object(ts, acc, f1),
    decreases f1, 1int,
{
    if ts.len() > 1 && ts[0] is Str && ts[1] is Colon {
        let k = ts[0]->Str_0;
        lemma_pv_value_mono(ts.skip(2), (f1 - 1) as nat, (f2 - 1) as nat);
        match pv_value(ts.skip(2), (f1 - 1) as nat) {
            Some(Ok((v, n))) => {
                let acc2 = upsert(acc, k, v);
                let rest = ts.skip(2 + n);
                if rest.len() > 0 && rest[0] is CurlyClose {
                    lemma_pv_object_mono(rest, acc2, (f1 - 1) as nat, (f2 - 1) as nat);
                } else if rest.len() > 0 && rest[0] is Comma {
                    lemma_pv_object_mono(rest.skip(1), acc2, (f1 - 1) as nat, (f2 - 1) as nat);
                }
            },
            _ => {},
        }
    }
}

/// `2*len + 2` units of fuel always reach an outcome for one value.
proof fn lemma_pv_value_some(ts: Seq<SpecToken>, fuel: nat)
    requires
        fuel >= 2 * ts.len() + 2,
    ensures
        pv_value(ts, fuel) is Some,
    decreases ts.len(), 0int,
{
    if ts.len() > 0 {
        match ts[0] {
            SpecToken::CurlyOpen => {
                lemma_pv_object_some(ts.skip(1), Seq::empty(), (fuel - 1) as nat);
            },
            SpecToken::SquareOpen => {
                lemma_pv_array_some(ts.skip(1), Seq::empty(), (fuel - 1) as nat);
            },
            _ => {},
        }
    }
}

proof fn lemma_pv_array_some(ts: Seq<SpecToken>, acc: Seq<SpecValue>, fuel: nat)
    requires
        fuel >= 2 * ts.len() + 3,
    ensures
        pv_array(ts, acc, fuel) is Some,
    decreases ts.len(), 1int,
{
    if ts.len() > 0 && !(ts[0] is SquareClose) {
        lemma_pv_value_some(ts, (fuel - 1) as nat);
        lemma_pv_value_n(ts, (fuel - 1) as nat);
        match pv_value(ts, (fuel - 1) as nat) {
            Some(Ok((v, n))) => {
                let rest = ts.skip(n);
                if rest.len() > 0 && rest[0] is Comma {
                    lemma_pv_array_some(rest.skip(1), acc.push(v), (fuel - 1) as nat);
                } else if rest.len() > 0 && rest[0] is SquareClose {
                    lemma_pv_array_some(rest, acc.push(v), (fuel - 1) as nat);
                }
            },
            _ => {},
        }
    }
}

proof fn lemma_pv_object_some(ts: Seq<SpecToken>, acc: Seq<(Seq<char>, SpecValue)>, fuel: nat)
    requires
        fuel >= 2 * ts.len() + 3,
    ensures
        pv_object(ts, acc, fuel) is Some,
    decreases ts.len(), 1int,
{
    if ts.len() > 1 && ts[0] is Str && ts[1] is Colon {
        let k = ts[0]->Str_0;
        lemma_pv_value_some(ts.skip(2), (fuel - 1) as nat);
        lemma_pv_value_n(ts.skip(2), (fuel - 1) as nat);
        match pv_value(ts.skip(2), (fuel - 1) as nat) {
            Some(Ok((v, n))) => {
                let acc2 = upsert(acc, k, v);
                let rest = ts.skip(2 + n);
                if rest.len() > 0 && rest[0] is CurlyClose {
                    lemma_pv_object_some(rest, acc2, (fuel - 1) as nat);
                } else if rest.len() > 0 && rest[0] is Comma {
                    lemma_pv_object_some(rest.skip(1), acc2, (fuel - 1) as nat);
                }
            },
            _ => {},
        }
    }
}

/// Fuel that always suffices for one value out of `n` tokens.
pub open spec fn value_fuel(n: int) -> nat {
    (2 * n + 2) as nat
}

/// Fuel that always suffices for the elements or entries of `n` tokens.
pub open spec fn items_fuel(n: int) -> nat {
    (2 * n + 3) as nat
}

/// What parsing one value from `ts` yields: the value and the number of
/// tokens consumed, or the first failure.
pub open spec fn parse_value_at(ts: Seq<SpecToken>) -> Result<(SpecValue, int), SpecParseError> {
    match pv_value(ts, value_fuel(ts.len() as int)) {
        Some(r) => r,
        None => arbitrary(),
    }
}

/// What parsing array elements from `ts` (entered just after `[`) yields.
pub open spec fn parse_array_at(ts: Seq<SpecToken>, acc: Seq<SpecValue>) -> Result<
    (SpecValue, int),
    SpecParseError,
> {
    match pv_array(ts, acc, items_fuel(ts.len() as int)) {
        Some(r) => r,
        None => arbitrary(),
    }
}

/// What parsing object entries from `ts` (entered just after `{`) yields.
pub open spec fn parse_object_at(
    ts: Seq<SpecToken>,
    acc: Seq<(Seq<char>, SpecValue)>,
) -> Result<(SpecValue, int), SpecParseError> {
    match pv_object(ts, acc, items_fuel(ts.len() as int)) {
        Some(r) => r,
        None => arbitrary(),
    }
}

/// What parsing a whole token sequence yields: the value of its first
/// tokens; tokens after the first value are ignored.
pub open spec fn parse_spec(ts: Seq<SpecToken>) -> Result<SpecValue, SpecParseError> {
    match parse_value_at(ts) {
        Ok((v, n)) => Ok(v),
        Err(e) => Err(e),
    }
}

/// How `parse_value_at` unfolds, one step.
pub proof fn lemma_value_at_step(ts: Seq<SpecToken>)
    ensures
        ts.len() == 0 ==> parse_value_at(ts) == Err::<(SpecValue, int), _>(
            SpecParseError::UnexpectedEof { context: ParseContext::Value },
        ),
        ts.len() > 0 ==> parse_value_at(ts) == (match ts[0] {
            SpecToken::CurlyOpen => bump_r(parse_object_at(ts.skip(1), Seq::empty()), 1),
            SpecToken::SquareOpen => bump_r(parse_array_at(ts.skip(1), Seq::empty()), 1),
            SpecToken::Str(s) => Ok((SpecValue::Str(s), 1)),
            SpecToken::Bool(b) => Ok((SpecValue::Bool(b), 1)),
            SpecToken::Num(n) => Ok((SpecValue::Num(n), 1)),
            SpecToken::Null => Ok((SpecValue::Null, 1)),
            _ => Err(
                SpecParseError::UnexpectedToken { found: ts[0], context: ParseContext::Value },
            ),
        }),
        parse_value_at(ts) matches Ok((v, n)) ==> 1 <= n <= ts.len(),
{
    let f = value_fuel(ts.len() as int);
    lemma_pv_value_some(ts, f);
    lemma_pv_value_n(ts, f);
    if ts.len() > 0 {
        match ts[0] {
            SpecToken::CurlyOpen => {
                assert((f - 1) as nat == items_fuel(ts.skip(1).len() as int));
                lemma_pv_object_some(ts.skip(1), Seq::empty(), (f - 1) as nat);
            },
            SpecToken::SquareOpen => {
                assert((f - 1) as nat == items_fuel(ts.skip(1).len() as int));
                lemma_pv_array_some(ts.skip(1), Seq::empty(), (f - 1) as nat);
            },
            _ => {},
        }
    }
}

/// How `parse_array_at` unfolds, one step.
pub proof fn lemma_array_at_step(ts: Seq<SpecToken>, acc: Seq<SpecValue>)
    ensures
        ts.len() == 0 ==> parse_array_at(ts, acc) == Ok::<_, SpecParseError>(
            (SpecValue::Array(acc), 0int),
        ),
        ts.len() > 0 && ts[0] is SquareClose ==> parse_array_at(ts, acc) == Ok::<
            _,
            SpecParseError,
        >((SpecValue::Array(acc), 1int)),
        ts.len() > 0 && !(ts[0] is SquareClose) ==> parse_array_at(ts, acc) == (
        match parse_value_at(ts) {
            Err(e) => Err(e),
            Ok((v, n)) => {
                let rest = ts.skip(n);
                if rest.len() == 0 {
                    Err(SpecParseError::UnexpectedEof { context: ParseContext::Array })
                } else if rest[0] is Comma {
                    bump_r(parse_array_at(rest.skip(1), acc.push(v)), n + 1)
                } else if rest[0] is SquareClose {
                    bump_r(parse_array_at(rest, acc.push(v)), n)
                } else {
                    Err(SpecParseError::ExpectedCommaOrClose { found: rest[0] })
                }
            },
        }),
        parse_array_at(ts, acc) matches Ok((v, n)) ==> 0 <= n <= ts.len(),
{
    let f = items_fuel(ts.len() as int);
    lemma_pv_array_some(ts, acc, f);
    lemma_pv_array_n(ts, acc, f);
    if ts.len() > 0 && !(ts[0] is SquareClose) {
        assert((f - 1) as nat == value_fuel(ts.len() as int));
        lemma_pv_value_some(ts, (f - 1) as nat);
        lemma_pv_value_n(ts, (f - 1) as nat);
        match pv_value(ts, (f - 1) as nat) {
            Some(Ok((v, n))) => {
                let rest = ts.skip(n);
                if rest.len() > 0 && rest[0] is Comma {
                    lemma_pv_array_some(rest.skip(1), acc.push(v), items_fuel(rest.len() - 1));
                    lemma_pv_array_mono(
                        rest.skip(1),
                        acc.push(v),
                        items_fuel(rest.len() - 1),
                        (f - 1) as nat,
                    );
                } else if rest.len() > 0 && rest[0] is SquareClose {
                    lemma_pv_array_some(rest, acc.push(v), items_fuel(rest.len() as int));
                    lemma_pv_array_mono(
                        rest,
                        acc.push(v),
                        items_fuel(rest.len() as int),
                        (f - 1) as nat,
                    );
                }
            },
            _ => {},
        }
    }
}

/// How `parse_object_at` unfolds, one step.
pub proof fn lemma_object_at_step(ts: Seq<SpecToken>, acc: Seq<(Seq<char>, SpecValue)>)
    ensures
        ts.len() == 0 ==> parse_object_at(ts, acc) == Ok::<_, SpecParseError>(
            (SpecValue::Object(acc), 0int),
        ),
        ts.len() > 0 && ts[0] is CurlyClose ==> parse_object_at(ts, acc) == Ok::<
            _,
            SpecParseError,
        >((SpecValue::Object(acc), 1int)),
        ts.len() > 0 && !(ts[0] is CurlyClose) && !(ts[0] is Str) ==> parse_object_at(ts, acc)
            == Err::<(SpecValue, int), _>(
            SpecParseError::UnexpectedToken { found: ts[0], context: ParseContext::ObjectKey },
        ),
        ts.len() == 1 && ts[0] is Str ==> parse_object_at(ts, acc) == Err::<
            (SpecValue, int),
            _,
        >(SpecParseError::UnexpectedEof { context: ParseContext::ObjectPair }),
        ts.len() > 1 && ts[0] is Str && !(ts[1] is Colon) ==> parse_object_at(ts, acc) == Err::<
            (SpecValue, int),
            _,
        >(SpecParseError::ExpectedColon { found: ts[1] }),
        ts.len() > 1 && ts[0] is Str && ts[1] is Colon ==> parse_object_at(ts, acc) == (
        match parse_value_at(ts.skip(2)) {
            Err(e) => Err(e),
            Ok((v, n)) => {
                let acc2 = upsert(acc, ts[0]->Str_0, v);
                let rest = ts.skip(2 + n);
                if rest.len() == 0 {
                    Err(SpecParseError::UnexpectedEof { context: ParseContext::ObjectPairEnd })
                } else if rest[0] is CurlyClose {
                    bump_r(parse_object_at(rest, acc2), 2 + n)
                } else if rest[0] is Comma {
                    bump_r(parse_object_at(rest.skip(1), acc2), 3 + n)
                } else {
                    Err(SpecParseError::ExpectedCommaOrClose { found: rest[0] })
                }
            },
        }),
        parse_object_at(ts, acc) matches Ok((v, n)) ==> 0 <= n <= ts.len(),
{
    let f = items_fuel(ts.len() as int);
    lemma_pv_object_some(ts, acc, f);
    lemma_pv_object_n(ts, acc, f);
    if ts.len() > 1 && ts[0] is Str && ts[1] is Colon {
        let k = ts[0]->Str_0;
        lemma_pv_value_some(ts.skip(2), (f - 1) as nat);
        lemma_pv_value_n(ts.skip(2), (f - 1) as nat);
        lemma_pv_value_some(ts.skip(2), value_fuel(ts.len() - 2));
        lemma_pv_value_mono(ts.skip(2), value_fuel(ts.len() - 2), (f - 1) as nat);
        match pv_value(ts.skip(2), (f - 1) as nat) {
            Some(Ok((v, n))) => {
                let acc2 = upsert(acc, k, v);
                let rest = ts.skip(2 + n);
                if rest.len() > 0 && rest[0] is CurlyClose {
                    lemma_pv_object_some(rest, acc2, items_fuel(rest.len() as int));
                    lemma_pv_object_mono(rest, acc2, items_fuel(rest.len() as int), (f - 1) as nat);
                } else if rest.len() > 0 && rest[0] is Comma {
                    lemma_pv_object_some(rest.skip(1), acc2, items_fuel(rest.len() - 1));
                    lemma_pv_object_mono(
                        rest.skip(1),
                        acc2,
                        items_fuel(rest.len() - 1),
                        (f - 1) as nat,
                    );
                }
            },
            _ => {},
        }
    }
}

fn copy_token(t: &Token) -> (r: Token)
    ensures
        r@ == t@,
{
    match t {
        Token::CurlyOpen => Token::CurlyOpen,
        Token::CurlyClose => Token::CurlyClose,
        Token::SquareOpen => Token::SquareOpen,
        Token::SquareClose => Token::SquareClose,
        Token::Colon => Token::Colon,
        Token::Comma => Token::Comma,
        Token::Null => Token::Null,
        Token::Str(s) => Token::Str(s.clone()),
        Token::Num(s) => Token::Num(s.clone()),
        Token::Bool(b) => Token::Bool(*b),
    }
}

/// Inserts `(key, val)`, overwriting the value at the key's first position
/// if the key is already present.
fn upsert_entry(obj: &mut Vec<(String, JsonValue)>, key: String, val: JsonValue)
    ensures
        pairs_view(final(obj)@) == upsert(pairs_view(old(obj)@), key@, val.deep()),
{
    let ghost m = pairs_view(old(obj)@);
    proof {
        lemma_key_index(m, key@);
    }
    let mut j: usize = 0;
    while j < obj.len()
        invariant
            j <= obj@.len(),
            obj@ == old(obj)@,
            m == pairs_view(obj@),
            forall|jj: int| 0 <= jj < j ==> m[jj].0 != key@,
            0 <= key_index(m, key@) <= m.len(),
            key_index(m, key@) < m.len() ==> m[key_index(m, key@)].0 == key@,
            forall|jj: int| 0 <= jj < key_index(m, key@) ==> m[jj].0 != key@,
        decreases obj@.len() - j,
    {
        let hit = {
            let p = &obj[j];
            p.0 == key
        };
        if hit {
            proof {
                assert(m[j as int].0 == key@);
                assert(key_index(m, key@) == j);
            }
            obj[j] = (key, val);
            proof {
                assert(pairs_view(obj@) =~= m.update(j as int, (key@, val.deep())));
            }
            return;
        }
        j += 1;
    }
    proof {
        assert(key_index(m, key@) == m.len());
    }
    obj.push((key, val));
    proof {
        assert(pairs_view(obj@) =~= m.push((key@, val.deep())));
    }
}

/// Parses one value beginning at `tokens[pos]`; returns the outcome and the
/// position just after what was consumed.
fn parse_value(tokens: &Vec<Token>, pos: usize) -> (r: (Result<JsonValue, ParseError>, usize))
    requires
        pos <= tokens@.len(),
    ensures
        pos <= r.1 <= tokens@.len(),
        match r.0 {
            Ok(v) => parse_value_at(toks_view(tokens@).skip(pos as int)) == Ok::<
                _,
                SpecParseError,
            >((v.deep(), r.1 - pos as int)),
            Err(e) => parse_value_at(toks_view(tokens@).skip(pos as int)) == Err::<
                (SpecValue, int),
                _,
            >(e@),
        },
    decreases tokens@.len() - pos, 0int,
{
    let ghost ts = toks_view(tokens@).skip(pos as int);
    proof {
        lemma_value_at_step(ts);
    }
    if pos >= tokens.len() {
        return (Err(ParseError::UnexpectedEof { context: ParseContext::Value }), pos);
    }
    proof {
        assert(ts[0] == tokens@[pos as int]@);
    }
    let t = &tokens[pos];
    match t {
        Token::CurlyOpen => {
            let (r, np) = parse_object(tokens, pos + 1);
            proof {
                assert(toks_view(tokens@).skip(pos + 1 as int) =~= ts.skip(1));
            }
            (r, np)
        },
        Token::SquareOpen => {
            let (r, np) = parse_array(tokens, pos + 1);
            proof {
                assert(toks_view(tokens@).skip(pos + 1 as int) =~= ts.skip(1));
            }
            (r, np)
        },
        Token::Str(s) => (Ok(JsonValue::Str(s.clone())), pos + 1),
        Token::Bool(b) => (Ok(JsonValue::Bool(*b)), pos + 1),
        Token::Num(s) => (Ok(JsonValue::Num(s.clone())), pos + 1),
        Token::Null => (Ok(JsonValue::Null), pos + 1),
        _ => (
            Err(
                ParseError::UnexpectedToken { found: copy_token(t), context: ParseContext::Value },
            ),
            pos,
        ),
    }
}

/// Parses array elements, entered just after the opening bracket.
fn parse_array(tokens: &Vec<Token>, pos: usize) -> (r: (Result<JsonValue, ParseError>, usize))
    requires
        pos <= tokens@.len(),
    ensures
        pos <= r.1 <= tokens@.len(),
        match r.0 {
            Ok(v) => parse_array_at(toks_view(tokens@).skip(pos as int), Seq::empty()) == Ok::<
                _,
                SpecParseError,
            >((v.deep(), r.1 - pos as int)),
            Err(e) => parse_array_at(toks_view(tokens@).skip(pos as int), Seq::empty()) == Err::<
                (SpecValue, int),
                _,
            >(e@),
        },
    decreases tokens@.len() - pos, 1int,
{
    let ghost ts0 = toks_view(tokens@).skip(pos as int);
    let mut arr: Vec<JsonValue> = Vec::new();
    let mut cur: usize = pos;
    proof {
        assert(elems_view(arr@) =~= Seq::<SpecValue>::empty());
    }
    while cur < tokens.len()
        invariant
            pos <= cur <= tokens@.len(),
            ts0 == toks_view(tokens@).skip(pos as int),
            parse_array_at(ts0, Seq::empty()) == bump_r(
                parse_array_at(toks_view(tokens@).skip(cur as int), elems_view(arr@)),
                cur - pos,
            ),
        decreases tokens@.len() - cur,
    {
        let ghost tsc = toks_view(tokens@).skip(cur as int);
        let ghost ev = elems_view(arr@);
        proof {
            lemma_array_at_step(tsc, ev);
            assert(tsc[0] == tokens@[cur as int]@);
        }
        let close = matches!(&tokens[cur], Token::SquareClose);
        if close {
            proof {
                lemma_array_deep(&arr);
            }
            return (Ok(JsonValue::Array(arr)), cur + 1);
        }
        let (rv, np) = parse_value(tokens, cur);
        match rv {
            Err(e) => {
                return (Err(e), np);
            },
            Ok(v) => {
                let ghost n = np - cur as int;
                proof {
                    assert(tsc.skip(n) =~= toks_view(tokens@).skip(np as int));
                }
                if np >= tokens.len() {
                    return (Err(ParseError::UnexpectedEof { context: ParseContext::Array }), np);
                }
                proof {
                    assert(tsc.skip(n)[0] == tokens@[np as int]@);
                }
                match &tokens[np] {
                    Token::Comma => {
                        proof {
                            assert(elems_view(arr@.push(v)) =~= ev.push(v.deep()));
                            assert(tsc.skip(n).skip(1) =~= toks_view(tokens@).skip(np + 1 as int));
                        }
                        arr.push(v);
                        cur = np + 1;
                    },
                    Token::SquareClose => {
                        proof {
                            assert(elems_view(arr@.push(v)) =~= ev.push(v.deep()));
                        }
                        arr.push(v);
                        cur = np;
                    },
                    other => {
                        return (
                            Err(ParseError::ExpectedCommaOrClose { found: copy_token(other) }),
                            np,
                        );
                    },
                }
            },
        }
    }
    proof {
        lemma_array_at_step(toks_view(tokens@).skip(cur as int), elems_view(arr@));
        lemma_array_deep(&arr);
    }
    (Ok(JsonValue::Array(arr)), cur)
}

/// Parses object entries, entered just after the opening brace.
fn parse_object(tokens: &Vec<Token>, pos: usize) -> (r: (Result<JsonValue, ParseError>, usize))
    requires
        pos <= tokens@.len(),
    ensures
        pos <= r.1 <= tokens@.len(),
        match r.0 {
            Ok(v) => parse_object_at(toks_view(tokens@).skip(pos as int), Seq::empty()) == Ok::<
                _,
                SpecParseError,
            >((v.deep(), r.1 - pos as int)),
            Err(e) => parse_object_at(toks_view(tokens@).skip(pos as int), Seq::empty())
                == Err::<(SpecValue, int), _>(e@),
        },
    decreases tokens@.len() - pos, 1int,
{
    let ghost ts0 = toks_view(tokens@).skip(pos as int);
    let mut obj: Vec<(String, JsonValue)> = Vec::new();
    let mut cur: usize = pos;
    proof {
        assert(pairs_view(obj@) =~= Seq::<(Seq<char>, SpecValue)>::empty());
    }
    while cur < tokens.len()
        invariant
            pos <= cur <= tokens@.len(),
            ts0 == toks_view(tokens@).skip(pos as int),
            parse_object_at(ts0, Seq::empty()) == bump_r(
                parse_object_at(toks_view(tokens@).skip(cur as int), pairs_view(obj@)),
                cur - pos,
            ),
        decreases tokens@.len() - cur,
    {
        let ghost tsc = toks_view(tokens@).skip(cur as int);
        let ghost pv = pairs_view(obj@);
        proof {
            lemma_object_at_step(tsc, pv);
            assert(tsc[0] == tokens@[cur as int]@);
        }
        let key = match &tokens[cur] {
            Token::CurlyClose => {
                proof {
                    lemma_object_deep(&obj);
                }
                return (Ok(JsonValue::Object(obj)), cur + 1);
            },
            Token::Str(s) => s.clone(),
            other => {
                return (
                    Err(
                        ParseError::UnexpectedToken {
                            found: copy_token(other),
                            context: ParseContext::ObjectKey,
                        },
                    ),
                    cur,
                );
            },
        };
        if cur + 1 >= tokens.len() {
            return (Err(ParseError::UnexpectedEof { context: ParseContext::ObjectPair }), cur + 1);
        }
        proof {
            assert(tsc[1] == tokens@[cur + 1 as int]@);
        }
        let colon = matches!(&tokens[cur + 1], Token::Colon);
        if !colon {
            let found = copy_token(&tokens[cur + 1]);
            return (Err(ParseError::ExpectedColon { found }), cur + 1);
        }
        proof {
            assert(tsc.skip(2) =~= toks_view(tokens@).skip(cur + 2 as int));
        }
        let (rv, np) = parse_value(tokens, cur + 2);
        match rv {
            Err(e) => {
                return (Err(e), np);
            },
            Ok(v) => {
                let ghost n = np - (cur + 2) as int;
                proof {
                    assert(tsc.skip(2 + n) =~= toks_view(tokens@).skip(np as int));
                }
                let ghost acc2 = upsert(pv, key@, v.deep());
                upsert_entry(&mut obj, key, v);
                if np >= tokens.len() {
                    return (
                        Err(ParseError::UnexpectedEof { context: ParseContext::ObjectPairEnd }),
                        np,
                    );
                }
                proof {
                    assert(tsc.skip(2 + n)[0] == tokens@[np as int]@);
                }
                match &tokens[np] {
                    Token::CurlyClose => {
                        cur = np;
                    },
                    Token::Comma => {
                        proof {
                            assert(tsc.skip(2 + n).skip(1) =~= toks_view(tokens@).skip(
                                np + 1 as int,
                            ));
                        }
                        cur = np + 1;
                    },
                    other => {
                        return (
                            Err(ParseError::ExpectedCommaOrClose { found: copy_token(other) }),
                            np,
                        );
                    },
                }
            },
        }
    }
    proof {
        lemma_object_at_step(toks_view(tokens@).skip(cur as int), pairs_view(obj@));
        lemma_object_deep(&obj);
    }
    (Ok(JsonValue::Object(obj)), cur)
}

/// Parses the token sequence into a value tree: the sequence's first tokens
/// form one value and any tokens after it are ignored.  Fails fast with the
/// first syntactic error.
pub fn parse(tokens: Vec<Token>) -> (r: Result<JsonValue, ParseError>)
    ensures
        match r {
            Ok(v) => parse_spec(toks_view(tokens@)) == Ok::<_, SpecParseError>(v.deep()),
            Err(e) => parse_spec(toks_view(tokens@)) == Err::<SpecValue, _>(e@),
        },
{
    proof {
        assert(toks_view(tokens@).skip(0) =~= toks_view(tokens@));
    }
    let (r, _rest) = parse_value(&tokens, 0);
    r
}

} // verus!
