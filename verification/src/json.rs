//! The JSON value tree and the recursive-descent parser.
//!
//! [`JsonParser::parse`] consumes the token stream of one document rooted at
//! an object and builds a [`JsonValue`] tree, or stops at the first error.
//! The parser holds two tokens of lookahead (`current` and `next`), updated
//! in lockstep by `advance`.  Its exact behaviour is given by the functional
//! model [`spec_parse`] over [`ParserModel`]: which value tree a given state
//! yields, with which error message it fails, and where the lexer stands
//! afterwards.
//!
//! Numbers keep their digit lexeme: the grammar only admits unsigned digit
//! runs, and the host converts them to its numeric type of choice.

pub mod lexer;

use vstd::prelude::*;

verus! {

use vstd::pervasive::VecAdditionalExecFns;
use vstd::string::StringExecFns;

use crate::json::lexer::{
    JsonLexer, JsonTokenType, LexerModel, LexResult, Token, lemma_next_token_fuel,
    spec_next_token,
};

/// A JSON value: a closed tagged union over six variants.
///
/// An object is a vector of key-value pairs with pairwise distinct keys, in
/// insertion order, where inserting an existing key replaces its value in
/// place.  A number holds its raw digit lexeme.
#[derive(Debug, PartialEq)]
pub enum JsonValue {
    String(String),
    Number(String),
    Object(Vec<(String, JsonValue)>),
    Array(Vec<JsonValue>),
    Boolean(bool),
    Nil,
}

/// Mathematical shape of a [`JsonValue`].
pub enum ValueModel {
    Str(Seq<char>),
    Num(Seq<char>),
    Obj(Seq<(Seq<char>, ValueModel)>),
    Arr(Seq<ValueModel>),
    Bool(bool),
    Null,
}

/// The models of an object's entries, in order.
pub open spec fn entries_model(o: Seq<(String, JsonValue)>) -> Seq<(Seq<char>, ValueModel)>
    decreases o, 1int,
{
    if o.len() == 0 {
        Seq::empty()
    } else {
        seq![(o[0].0@, o[0].1.model())] + entries_model(o.drop_first())
    }
}

/// The models of an array's elements, in order.
pub open spec fn elements_model(a: Seq<JsonValue>) -> Seq<ValueModel>
    decreases a, 1int,
{
    if a.len() == 0 {
        Seq::empty()
    } else {
        seq![a[0].model()] + elements_model(a.drop_first())
    }
}

/// An entry list models its entries pointwise.
pub proof fn lemma_entries_model(o: Seq<(String, JsonValue)>)
    ensures
        entries_model(o).len() == o.len(),
        forall|i: int| 0 <= i < o.len() ==> entries_model(o)[i] == (o[i].0@, o[i].1.model()),
    decreases o.len(),
{
    if o.len() > 0 {
        lemma_entries_model(o.drop_first());
    }
}

/// An element list models its elements pointwise.
pub proof fn lemma_elements_model(a: Seq<JsonValue>)
    ensures
        elements_model(a).len() == a.len(),
        forall|i: int| 0 <= i < a.len() ==> elements_model(a)[i] == a[i].model(),
    decreases a.len(),
{
    if a.len() > 0 {
        lemma_elements_model(a.drop_first());
    }
}

impl JsonValue {
    /// The mathematical shape of this value.
    pub open spec fn model(self) -> ValueModel
        decreases self, 0int,
    {
        match self {
            JsonValue::String(s) => ValueModel::Str(s@),
            JsonValue::Number(s) => ValueModel::Num(s@),
            JsonValue::Object(o) => ValueModel::Obj(entries_model(o@)),
            JsonValue::Array(a) => ValueModel::Arr(elements_model(a@)),
            JsonValue::Boolean(b) => ValueModel::Bool(b),
            JsonValue::Nil => ValueModel::Null,
        }
    }
}

/// Whether some entry carries the key `k`.
pub open spec fn obj_has_key(entries: Seq<(Seq<char>, ValueModel)>, k: Seq<char>) -> bool {
    exists|i: int| 0 <= i < entries.len() && (#[trigger] entries[i]).0 == k
}

/// Insert `k -> v`: replace the value of the first entry carrying `k`, or
/// append a new entry.  Last write wins; insertion order is kept.
pub open spec fn obj_insert(
    entries: Seq<(Seq<char>, ValueModel)>,
    k: Seq<char>,
    v: ValueModel,
) -> Seq<(Seq<char>, ValueModel)>
    decreases entries.len(),
{
    if entries.len() == 0 {
        seq![(k, v)]
    } else if entries[0].0 == k {
        seq![(k, v)] + entries.drop_first()
    } else {
        seq![entries[0]] + obj_insert(entries.drop_first(), k, v)
    }
}

/// When `k` first occurs at index `i`, inserting `k -> v` updates that
/// entry in place.
pub proof fn lemma_obj_insert_at(
    entries: Seq<(Seq<char>, ValueModel)>,
    k: Seq<char>,
    v: ValueModel,
    i: int,
)
    requires
        0 <= i < entries.len(),
        entries[i].0 == k,
        forall|j: int| 0 <= j < i ==> entries[j].0 != k,
    ensures
        obj_insert(entries, k, v) == entries.update(i, (k, v)),
    decreases i,
{
    if i == 0 {
        assert(seq![(k, v)] + entries.drop_first() =~= entries.update(0, (k, v)));
    } else {
        lemma_obj_insert_at(entries.drop_first(), k, v, i - 1);
        assert(seq![entries[0]] + entries.drop_first().update(i - 1, (k, v)) =~= entries.update(
            i,
            (k, v),
        ));
    }
}

/// When `k` occurs in no entry, inserting `k -> v` appends a new entry.
pub proof fn lemma_obj_insert_append(
    entries: Seq<(Seq<char>, ValueModel)>,
    k: Seq<char>,
    v: ValueModel,
)
    requires
        forall|j: int| 0 <= j < entries.len() ==> entries[j].0 != k,
    ensures
        obj_insert(entries, k, v) == entries.push((k, v)),
    decreases entries.len(),
{
    if entries.len() == 0 {
        assert(seq![(k, v)] =~= entries.push((k, v)));
    } else {
        lemma_obj_insert_append(entries.drop_first(), k, v);
        assert(seq![entries[0]] + entries.drop_first().push((k, v)) =~= entries.push((k, v)));
    }
}

/// Pairwise distinct keys.
pub open spec fn obj_keys_distinct(entries: Seq<(Seq<char>, ValueModel)>) -> bool {
    forall|i: int, j: int| 0 <= i < j < entries.len() ==> entries[i].0 != entries[j].0
}

/// Inserting into an object with distinct keys keeps the keys distinct,
/// carries the inserted key, and leaves exactly the keys held before plus
/// the inserted one: the last write to a key wins without duplicating it.
pub proof fn lemma_obj_insert_props(
    entries: Seq<(Seq<char>, ValueModel)>,
    k: Seq<char>,
    v: ValueModel,
)
    requires
        obj_keys_distinct(entries),
    ensures
        obj_keys_distinct(obj_insert(entries, k, v)),
        obj_has_key(obj_insert(entries, k, v), k),
        forall|k2: Seq<char>|
            obj_has_key(obj_insert(entries, k, v), k2) <==> (obj_has_key(entries, k2) || k2 == k),
    decreases entries.len(),
{
    let res = obj_insert(entries, k, v);
    if entries.len() == 0 {
        assert(res[0].0 == k);
        assert forall|k2: Seq<char>| obj_has_key(res, k2) implies (obj_has_key(entries, k2) || k2
            == k) by {
            let i = choose|i: int| 0 <= i < res.len() && res[i].0 == k2;
            assert(i == 0);
        }
    } else if entries[0].0 == k {
        assert(res[0].0 == k);
        assert forall|i: int, j: int| 0 <= i < j < res.len() implies res[i].0 != res[j].0 by {
            assert(res[j] == entries[j]);
            if i > 0 {
                assert(res[i] == entries[i]);
            }
        }
        assert forall|k2: Seq<char>| obj_has_key(res, k2) implies (obj_has_key(entries, k2) || k2
            == k) by {
            let i = choose|i: int| 0 <= i < res.len() && res[i].0 == k2;
            if i > 0 {
                assert(entries[i].0 == k2);
            }
        }
        assert forall|k2: Seq<char>| (obj_has_key(entries, k2) || k2 == k) implies obj_has_key(
            res,
            k2,
        ) by {
            if k2 == k {
                assert(res[0].0 == k2);
            } else {
                let i = choose|i: int| 0 <= i < entries.len() && entries[i].0 == k2;
                assert(res[i].0 == k2);
            }
        }
    } else {
        let tail = entries.drop_first();
        assert(obj_keys_distinct(tail)) by {
            assert(forall|i: int, j: int|
                0 <= i < j < tail.len() ==> tail[i] == entries[i + 1] && tail[j] == entries[j
                    + 1]);
        }
        lemma_obj_insert_props(tail, k, v);
        let tres = obj_insert(tail, k, v);
        assert(res =~= seq![entries[0]] + tres);
        assert forall|i: int, j: int| 0 <= i < j < res.len() implies res[i].0 != res[j].0 by {
            if i == 0 {
                assert(res[j].0 == tres[j - 1].0);
                if res[0].0 == res[j].0 {
                    assert(obj_has_key(tres, entries[0].0));
                    if obj_has_key(tail, entries[0].0) {
                        let t = choose|t: int|
                            0 <= t < tail.len() && tail[t].0 == entries[0].0;
                        assert(entries[t + 1].0 == entries[0].0);
                    }
                }
            } else {
                assert(res[i].0 == tres[i - 1].0 && res[j].0 == tres[j - 1].0);
            }
        }
        assert(res[0].0 == entries[0].0);
        assert(obj_has_key(tres, k));
        assert forall|k2: Seq<char>| obj_has_key(res, k2) implies (obj_has_key(entries, k2) || k2
            == k) by {
            let i = choose|i: int| 0 <= i < res.len() && res[i].0 == k2;
            if i == 0 {
                assert(entries[0].0 == k2);
            } else {
                let w = i - 1;
                assert(res[i] == tres[w]);
                assert(0 <= w < tres.len() && tres[w].0 == k2);
                assert(obj_has_key(tres, k2));
                if obj_has_key(tail, k2) {
                    let t = choose|t: int| 0 <= t < tail.len() && tail[t].0 == k2;
                    assert(entries[t + 1].0 == k2);
                }
            }
        }
        assert forall|k2: Seq<char>| (obj_has_key(entries, k2) || k2 == k) implies obj_has_key(
            res,
            k2,
        ) by {
            if obj_has_key(entries, k2) {
                let i = choose|i: int| 0 <= i < entries.len() && entries[i].0 == k2;
                if i == 0 {
                    assert(res[0].0 == k2);
                } else {
                    let w = i - 1;
                    assert(0 <= w < tail.len() && tail[w].0 == k2);
                    assert(obj_has_key(tail, k2));
                    assert(obj_has_key(tres, k2));
                    let t = choose|t: int| 0 <= t < tres.len() && tres[t].0 == k2;
                    assert(res[t + 1].0 == k2);
                }
            } else {
                let t = choose|t: int| 0 <= t < tres.len() && tres[t].0 == k;
                assert(res[t + 1].0 == k);
            }
        }
        assert(obj_has_key(res, k));
    }
}

/// Mathematical state of a parser: the lexer state and the two lookahead
/// tokens, each a lexeme with its kind.
pub struct ParserModel {
    pub lexer: LexerModel,
    pub current: (Seq<char>, JsonTokenType),
    pub next: (Seq<char>, JsonTokenType),
}

impl ParserModel {
    pub open spec fn wf(self) -> bool {
        self.lexer.wf()
    }

    /// Termination measure: lexer fuel plus a charge for each lookahead slot
    /// not yet holding `EOF`.  Every successful `advance` strictly lowers
    /// it.
    pub open spec fn fuel(self) -> int {
        self.lexer.fuel() + (if self.current.1 == JsonTokenType::EOF {
            0int
        } else {
            2int
        }) + (if self.next.1 == JsonTokenType::EOF {
            0int
        } else {
            1int
        })
    }
}

/// Outcome of one `advance`: the shifted state, or an error message.
pub enum AdvanceResult {
    Next(ParserModel),
    Fail(Seq<char>),
}

/// Advancing fails once `current` is `EOF`; otherwise `next` shifts into
/// `current` and a fresh token fills `next`, with lexer errors passed
/// through.
pub open spec fn spec_advance(p: ParserModel) -> AdvanceResult {
    if p.current.1 == JsonTokenType::EOF {
        AdvanceResult::Fail("unexpected EOF"@)
    } else {
        match spec_next_token(p.lexer) {
            LexResult::Token(lex, k, m2) => AdvanceResult::Next(
                ParserModel { lexer: m2, current: p.next, next: (lex, k) },
            ),
            LexResult::Error(e) => AdvanceResult::Fail(e),
        }
    }
}

/// A successful `advance` preserves well-formedness and the input and
/// strictly spends parser fuel.
pub proof fn lemma_advance_fuel(p: ParserModel)
    requires
        p.wf(),
    ensures
        spec_advance(p) matches AdvanceResult::Next(p2) ==> p2.wf() && p2.lexer.bytes
            == p.lexer.bytes && p2.fuel() < p.fuel() && p2.current == p.next,
{
    if p.current.1 != JsonTokenType::EOF {
        lemma_next_token_fuel(p.lexer);
    }
}

/// Outcome of a `consume`: the consumed token and the state after it, or an
/// error message.
pub enum ConsumeResult {
    Got((Seq<char>, JsonTokenType), ParserModel),
    Fail(Seq<char>),
}

/// Consume the lookahead when it has the expected kind, else fail with
/// `msg`.
pub open spec fn spec_consume(p: ParserModel, expected: JsonTokenType, msg: Seq<char>) -> ConsumeResult {
    if p.next.1 == expected {
        match spec_advance(p) {
            AdvanceResult::Next(p2) => ConsumeResult::Got(p2.current, p2),
            AdvanceResult::Fail(e) => ConsumeResult::Fail(e),
        }
    } else {
        ConsumeResult::Fail(msg)
    }
}

pub proof fn lemma_consume_fuel(p: ParserModel, expected: JsonTokenType, msg: Seq<char>)
    requires
        p.wf(),
    ensures
        spec_consume(p, expected, msg) matches ConsumeResult::Got(t, p2) ==> p2.wf()
            && p2.lexer.bytes == p.lexer.bytes && p2.fuel() < p.fuel() && t == p.next && t.1
            == expected,
{
    lemma_advance_fuel(p);
}

/// Outcome of a `try_match`: whether the lookahead matched (and the state
/// after), or an error from refilling the lookahead.
pub enum TryMatchResult {
    Matched(bool, ParserModel),
    Fail(Seq<char>),
}

/// Consume the lookahead and answer `true` when it has the given kind; else
/// leave the state unchanged and answer `false`.
pub open spec fn spec_try_match(p: ParserModel, kind: JsonTokenType) -> TryMatchResult {
    if p.next.1 == kind {
        match spec_advance(p) {
            AdvanceResult::Next(p2) => TryMatchResult::Matched(true, p2),
            AdvanceResult::Fail(e) => TryMatchResult::Fail(e),
        }
    } else {
        TryMatchResult::Matched(false, p)
    }
}

pub proof fn lemma_try_match_fuel(p: ParserModel, kind: JsonTokenType)
    requires
        p.wf(),
    ensures
        spec_try_match(p, kind) matches TryMatchResult::Matched(b, p2) ==> p2.wf()
            && p2.lexer.bytes == p.lexer.bytes && (b ==> p2.fuel() < p.fuel()) && (!b ==> p2
            == p),
{
    lemma_advance_fuel(p);
}

/// Outcome of a grammar rule: the parsed value and the state after it, an
/// error message, or an exhausted termination guard.  [`lemma_parse_value_fuel`]
/// and its companions show that the guard never exhausts from a well-formed
/// state, so `Spent` is never the value of [`spec_parse`].
pub enum ParseResult {
    Val(ValueModel, ParserModel),
    Fail(Seq<char>),
    Spent,
}

/// The value rule: dispatch on the lookahead kind to exactly one rule, or
/// fail with "Unexpected input".
pub open spec fn spec_parse_value(p: ParserModel) -> ParseResult
    decreases p.fuel(), 1int,
    when p.wf()
{
    if p.next.1 == JsonTokenType::String {
        spec_parse_string(p)
    } else if p.next.1 == JsonTokenType::Number {
        spec_parse_number(p)
    } else if p.next.1 == JsonTokenType::LeftBrace {
        match spec_advance(p) {
            AdvanceResult::Next(p2) => {
                proof {
                    lemma_advance_fuel(p);
                }
                spec_parse_object(p2)
            }
            AdvanceResult::Fail(e) => ParseResult::Fail(e),
        }
    } else if p.next.1 == JsonTokenType::LeftBracket {
        match spec_advance(p) {
            AdvanceResult::Next(p2) => {
                proof {
                    lemma_advance_fuel(p);
                }
                spec_parse_array(p2)
            }
            AdvanceResult::Fail(e) => ParseResult::Fail(e),
        }
    } else if p.next.1 == JsonTokenType::Boolean {
        spec_parse_boolean(p)
    } else if p.next.1 == JsonTokenType::Null {
        match spec_advance(p) {
            AdvanceResult::Next(p2) => ParseResult::Val(ValueModel::Null, p2),
            AdvanceResult::Fail(e) => ParseResult::Fail(e),
        }
    } else {
        ParseResult::Fail("Unexpected input"@)
    }
}

/// The string rule: one token of kind `String` becomes its lexeme.
pub open spec fn spec_parse_string(p: ParserModel) -> ParseResult {
    match spec_consume(p, JsonTokenType::String, "Expected string"@) {
        ConsumeResult::Got(t, p2) => ParseResult::Val(ValueModel::Str(t.0), p2),
        ConsumeResult::Fail(e) => ParseResult::Fail(e),
    }
}

/// The number rule: one token of kind `Number` becomes its digit lexeme.
pub open spec fn spec_parse_number(p: ParserModel) -> ParseResult {
    match spec_consume(p, JsonTokenType::Number, "Expected number"@) {
        ConsumeResult::Got(t, p2) => ParseResult::Val(ValueModel::Num(t.0), p2),
        ConsumeResult::Fail(e) => ParseResult::Fail(e),
    }
}

/// The boolean rule: one token of kind `Boolean` becomes `true` exactly
/// when its lexeme is `true`.
pub open spec fn spec_parse_boolean(p: ParserModel) -> ParseResult {
    match spec_consume(p, JsonTokenType::Boolean, "Expected boolean"@) {
        ConsumeResult::Got(t, p2) => ParseResult::Val(ValueModel::Bool(t.0 == "true"@), p2),
        ConsumeResult::Fail(e) => ParseResult::Fail(e),
    }
}

/// The object rule, entered after `{` was consumed: an immediate `}` yields
/// the empty object, else the member list.
pub open spec fn spec_parse_object(p: ParserModel) -> ParseResult
    decreases p.fuel(), 3int,
    when p.wf()
{
    if p.next.1 == JsonTokenType::RightBrace {
        match spec_advance(p) {
            AdvanceResult::Next(p2) => ParseResult::Val(ValueModel::Obj(Seq::empty()), p2),
            AdvanceResult::Fail(e) => ParseResult::Fail(e),
        }
    } else {
        spec_parse_members(p, Seq::empty())
    }
}

/// The member list: a string key, `:`, a value, then `,` to continue or `}`
/// to finish; each member is inserted into the accumulated object, last
/// write winning.  The fuel guard on the recursion never exhausts
/// ([`lemma_parse_members_fuel`]).
pub open spec fn spec_parse_members(
    p: ParserModel,
    acc: Seq<(Seq<char>, ValueModel)>,
) -> ParseResult
    decreases p.fuel(), 2int,
    when p.wf()
{
    match spec_consume(p, JsonTokenType::String, "Expected string"@) {
        ConsumeResult::Fail(e) => ParseResult::Fail(e),
        ConsumeResult::Got(key, p1) => {
            match spec_consume(p1, JsonTokenType::Colon, "Expected ':' after object key"@) {
                ConsumeResult::Fail(e) => ParseResult::Fail(e),
                ConsumeResult::Got(_, p2) => {
                    proof {
                        lemma_consume_fuel(p, JsonTokenType::String, "Expected string"@);
                        lemma_consume_fuel(
                            p1,
                            JsonTokenType::Colon,
                            "Expected ':' after object key"@,
                        );
                    }
                    match spec_parse_value(p2) {
                        ParseResult::Fail(e) => ParseResult::Fail(e),
                        ParseResult::Spent => ParseResult::Spent,
                        ParseResult::Val(v, p3) => {
                            let acc2 = obj_insert(acc, key.0, v);
                            match spec_try_match(p3, JsonTokenType::Comma) {
                                TryMatchResult::Fail(e) => ParseResult::Fail(e),
                                TryMatchResult::Matched(true, p4) => {
                                    if p4.wf() && p4.fuel() < p.fuel() {
                                        spec_parse_members(p4, acc2)
                                    } else {
                                        ParseResult::Spent
                                    }
                                }
                                TryMatchResult::Matched(false, _) => {
                                    match spec_try_match(p3, JsonTokenType::RightBrace) {
                                        TryMatchResult::Fail(e) => ParseResult::Fail(e),
                                        TryMatchResult::Matched(true, p4) => ParseResult::Val(
                                            ValueModel::Obj(acc2),
                                            p4,
                                        ),
                                        TryMatchResult::Matched(false, _) => ParseResult::Fail(
                                            "Expected ',' or '}'"@,
                                        ),
                                    }
                                }
                            }
                        }
                    }
                }
            }
        }
    }
}

/// The array rule, entered after `[` was consumed: an immediate `]` yields
/// the empty array, else the element list.
pub open spec fn spec_parse_array(p: ParserModel) -> ParseResult
    decreases p.fuel(), 3int,
    when p.wf()
{
    if p.next.1 == JsonTokenType::RightBracket {
        match spec_advance(p) {
            AdvanceResult::Next(p2) => ParseResult::Val(ValueModel::Arr(Seq::empty()), p2),
            AdvanceResult::Fail(e) => ParseResult::Fail(e),
        }
    } else {
        spec_parse_elements(p, Seq::empty())
    }
}

/// The element list: a value, then `,` to continue or `]` to finish;
/// elements accumulate in source order.  The fuel guard on the recursion
/// never exhausts ([`lemma_parse_elements_fuel`]).
pub open spec fn spec_parse_elements(p: ParserModel, acc: Seq<ValueModel>) -> ParseResult
    decreases p.fuel(), 2int,
    when p.wf()
{
    match spec_parse_value(p) {
        ParseResult::Fail(e) => ParseResult::Fail(e),
        ParseResult::Spent => ParseResult::Spent,
        ParseResult::Val(v, p3) => {
            let acc2 = acc.push(v);
            match spec_try_match(p3, JsonTokenType::Comma) {
                TryMatchResult::Fail(e) => ParseResult::Fail(e),
                TryMatchResult::Matched(true, p4) => {
                    if p4.wf() && p4.fuel() < p.fuel() {
                        spec_parse_elements(p4, acc2)
                    } else {
                        ParseResult::Spent
                    }
                }
                TryMatchResult::Matched(false, _) => {
                    match spec_try_match(p3, JsonTokenType::RightBracket) {
                        TryMatchResult::Fail(e) => ParseResult::Fail(e),
                        TryMatchResult::Matched(true, p4) => ParseResult::Val(
                            ValueModel::Arr(acc2),
                            p4,
                        ),
                        TryMatchResult::Matched(false, _) => ParseResult::Fail(
                            "Expected ',' or ']'"@,
                        ),
                    }
                }
            }
        }
    }
}

/// The value rule preserves well-formedness and the input, strictly spends
/// fuel, and never exhausts a termination guard.
pub proof fn lemma_parse_value_fuel(p: ParserModel)
    requires
        p.wf(),
    ensures
        match spec_parse_value(p) {
            ParseResult::Val(v, p2) => p2.wf() && p2.lexer.bytes == p.lexer.bytes && p2.fuel()
                < p.fuel(),
            ParseResult::Fail(_) => true,
            ParseResult::Spent => false,
        },
    decreases p.fuel(), 1int,
{
    if p.next.1 == JsonTokenType::String {
        lemma_consume_fuel(p, JsonTokenType::String, "Expected string"@);
    } else if p.next.1 == JsonTokenType::Number {
        lemma_consume_fuel(p, JsonTokenType::Number, "Expected number"@);
    } else if p.next.1 == JsonTokenType::LeftBrace {
        lemma_advance_fuel(p);
        match spec_advance(p) {
            AdvanceResult::Next(p2) => {
                lemma_parse_object_fuel(p2);
            }
            AdvanceResult::Fail(_) => {}
        }
    } else if p.next.1 == JsonTokenType::LeftBracket {
        lemma_advance_fuel(p);
        match spec_advance(p) {
            AdvanceResult::Next(p2) => {
                lemma_parse_array_fuel(p2);
            }
            AdvanceResult::Fail(_) => {}
        }
    } else if p.next.1 == JsonTokenType::Boolean {
        lemma_consume_fuel(p, JsonTokenType::Boolean, "Expected boolean"@);
    } else if p.next.1 == JsonTokenType::Null {
        lemma_advance_fuel(p);
    } else {
    }
}

/// The object rule preserves well-formedness and the input, strictly
/// spends fuel, and never exhausts a termination guard.
pub proof fn lemma_parse_object_fuel(p: ParserModel)
    requires
        p.wf(),
    ensures
        match spec_parse_object(p) {
            ParseResult::Val(v, p2) => p2.wf() && p2.lexer.bytes == p.lexer.bytes && p2.fuel()
                < p.fuel(),
            ParseResult::Fail(_) => true,
            ParseResult::Spent => false,
        },
    decreases p.fuel(), 3int,
{
    if p.next.1 == JsonTokenType::RightBrace {
        lemma_advance_fuel(p);
    } else {
        lemma_parse_members_fuel(p, Seq::empty());
    }
}

/// The member-list rule preserves well-formedness and the input, strictly
/// spends fuel, and never exhausts a termination guard.
pub proof fn lemma_parse_members_fuel(p: ParserModel, acc: Seq<(Seq<char>, ValueModel)>)
    requires
        p.wf(),
    ensures
        match spec_parse_members(p, acc) {
            ParseResult::Val(v, p2) => p2.wf() && p2.lexer.bytes == p.lexer.bytes && p2.fuel()
                < p.fuel(),
            ParseResult::Fail(_) => true,
            ParseResult::Spent => false,
        },
    decreases p.fuel(), 2int,
{
    lemma_consume_fuel(p, JsonTokenType::String, "Expected string"@);
    match spec_consume(p, JsonTokenType::String, "Expected string"@) {
        ConsumeResult::Fail(_) => {}
        ConsumeResult::Got(key, p1) => {
            lemma_consume_fuel(p1, JsonTokenType::Colon, "Expected ':' after object key"@);
            match spec_consume(p1, JsonTokenType::Colon, "Expected ':' after object key"@) {
                ConsumeResult::Fail(_) => {}
                ConsumeResult::Got(_, p2) => {
                    lemma_parse_value_fuel(p2);
                    match spec_parse_value(p2) {
                        ParseResult::Fail(_) => {}
                        ParseResult::Spent => {}
                        ParseResult::Val(v, p3) => {
                            lemma_try_match_fuel(p3, JsonTokenType::Comma);
                            match spec_try_match(p3, JsonTokenType::Comma) {
                                TryMatchResult::Fail(_) => {}
                                TryMatchResult::Matched(true, p4) => {
                                    lemma_parse_members_fuel(p4, obj_insert(acc, key.0, v));
                                }
                                TryMatchResult::Matched(false, _) => {
                                    lemma_try_match_fuel(p3, JsonTokenType::RightBrace);
                                }
                            }
                        }
                    }
                }
            }
        }
    }
}

/// The array rule preserves well-formedness and the input, strictly spends
/// fuel, and never exhausts a termination guard.
pub proof fn lemma_parse_array_fuel(p: ParserModel)
    requires
        p.wf(),
    ensures
        match spec_parse_array(p) {
            ParseResult::Val(v, p2) => p2.wf() && p2.lexer.bytes == p.lexer.bytes && p2.fuel()
                < p.fuel(),
            ParseResult::Fail(_) => true,
            ParseResult::Spent => false,
        },
    decreases p.fuel(), 3int,
{
    if p.next.1 == JsonTokenType::RightBracket {
        lemma_advance_fuel(p);
    } else {
        lemma_parse_elements_fuel(p, Seq::empty());
    }
}

/// The element-list rule preserves well-formedness and the input, strictly
/// spends fuel, and never exhausts a termination guard.
pub proof fn lemma_parse_elements_fuel(p: ParserModel, acc: Seq<ValueModel>)
    requires
        p.wf(),
    ensures
        match spec_parse_elements(p, acc) {
            ParseResult::Val(v, p2) => p2.wf() && p2.lexer.bytes == p.lexer.bytes && p2.fuel()
                < p.fuel(),
            ParseResult::Fail(_) => true,
            ParseResult::Spent => false,
        },
    decreases p.fuel(), 2int,
{
    lemma_parse_value_fuel(p);
    match spec_parse_value(p) {
        ParseResult::Fail(_) => {}
        ParseResult::Spent => {}
        ParseResult::Val(v, p3) => {
            lemma_try_match_fuel(p3, JsonTokenType::Comma);
            match spec_try_match(p3, JsonTokenType::Comma) {
                TryMatchResult::Fail(_) => {}
                TryMatchResult::Matched(true, p4) => {
                    lemma_parse_elements_fuel(p4, acc.push(v));
                }
                TryMatchResult::Matched(false, _) => {
                    lemma_try_match_fuel(p3, JsonTokenType::RightBracket);
                }
            }
        }
    }
}

/// The member list yields an object, and when the accumulated entries have
/// distinct keys, so does the result.
pub proof fn lemma_members_object(p: ParserModel, acc: Seq<(Seq<char>, ValueModel)>)
    requires
        p.wf(),
        obj_keys_distinct(acc),
    ensures
        match spec_parse_members(p, acc) {
            ParseResult::Val(v, p2) => v matches ValueModel::Obj(es) && obj_keys_distinct(es),
            _ => true,
        },
    decreases p.fuel(), 2int,
{
    lemma_consume_fuel(p, JsonTokenType::String, "Expected string"@);
    match spec_consume(p, JsonTokenType::String, "Expected string"@) {
        ConsumeResult::Fail(_) => {}
        ConsumeResult::Got(key, p1) => {
            lemma_consume_fuel(p1, JsonTokenType::Colon, "Expected ':' after object key"@);
            match spec_consume(p1, JsonTokenType::Colon, "Expected ':' after object key"@) {
                ConsumeResult::Fail(_) => {}
                ConsumeResult::Got(_, p2) => {
                    lemma_parse_value_fuel(p2);
                    match spec_parse_value(p2) {
                        ParseResult::Fail(_) => {}
                        ParseResult::Spent => {}
                        ParseResult::Val(v, p3) => {
                            lemma_obj_insert_props(acc, key.0, v);
                            lemma_try_match_fuel(p3, JsonTokenType::Comma);
                            match spec_try_match(p3, JsonTokenType::Comma) {
                                TryMatchResult::Fail(_) => {}
                                TryMatchResult::Matched(true, p4) => {
                                    lemma_members_object(p4, obj_insert(acc, key.0, v));
                                }
                                TryMatchResult::Matched(false, _) => {}
                            }
                        }
                    }
                }
            }
        }
    }
}

/// A successful parse of a whole document always yields an `Obj` value, and
/// its keys are pairwise distinct: inserting a member under an existing key
/// replaces that member in place, so the last occurrence of a key wins and
/// keys never repeat.
pub proof fn lemma_parse_doc_object(bytes: Seq<u8>)
    ensures
        match spec_parse_doc(bytes) {
            ParseResult::Val(v, p2) => v matches ValueModel::Obj(es) && obj_keys_distinct(es),
            _ => true,
        },
{
    let p = spec_initial(bytes);
    lemma_advance_fuel(p);
    match spec_advance(p) {
        AdvanceResult::Fail(_) => {}
        AdvanceResult::Next(p1) => {
            lemma_consume_fuel(p1, JsonTokenType::LeftBrace, "Expected '{' at start of object"@);
            match spec_consume(p1, JsonTokenType::LeftBrace, "Expected '{' at start of object"@) {
                ConsumeResult::Fail(_) => {}
                ConsumeResult::Got(_, p2) => {
                    if p2.next.1 == JsonTokenType::RightBrace {
                    } else {
                        lemma_members_object(p2, Seq::empty());
                    }
                }
            }
        }
    }
}

/// A whole document: prime the lookahead, require `{`, then the object
/// rule.  Only documents rooted at an object are accepted.
pub open spec fn spec_parse(p: ParserModel) -> ParseResult {
    match spec_advance(p) {
        AdvanceResult::Fail(e) => ParseResult::Fail(e),
        AdvanceResult::Next(p1) => {
            match spec_consume(p1, JsonTokenType::LeftBrace, "Expected '{' at start of object"@) {
                ConsumeResult::Fail(e) => ParseResult::Fail(e),
                ConsumeResult::Got(_, p2) => spec_parse_object(p2),
            }
        }
    }
}

/// The parser state over a fresh input: cursor at the start, both lookahead
/// slots unfilled.
pub open spec fn spec_initial(bytes: Seq<u8>) -> ParserModel {
    ParserModel {
        lexer: LexerModel { bytes, pos: 0, putback: Option::None },
        current: (Seq::empty(), JsonTokenType::NoToken),
        next: (Seq::empty(), JsonTokenType::NoToken),
    }
}

/// What one whole parse of `bytes` yields.
pub open spec fn spec_parse_doc(bytes: Seq<u8>) -> ParseResult {
    spec_parse(spec_initial(bytes))
}

/// The recursive-descent parser: a lexer plus a two-token lookahead window.
pub struct JsonParser {
    lexer: JsonLexer,
    current: Token,
    next: Token,
}

impl View for JsonParser {
    type V = ParserModel;

    closed spec fn view(&self) -> ParserModel {
        ParserModel {
            lexer: self.lexer@,
            current: (self.current.0@, self.current.1),
            next: (self.next.0@, self.next.1),
        }
    }
}

impl JsonParser {
    /// A parser over the given bytes.
    pub fn new_from_bytes(bytes: Vec<u8>) -> (p: Self)
        ensures
            p@ == spec_initial(bytes@),
            p@.wf(),
    {
        JsonParser {
            lexer: JsonLexer::new_from_bytes(bytes),
            current: Token::new(String::new(), JsonTokenType::NoToken),
            next: Token::new(String::new(), JsonTokenType::NoToken),
        }
    }

    /// A parser over the UTF-8 bytes of the given text.
    pub fn new_from_string(s: &String) -> (p: Self)
        ensures
            p@ == spec_initial(vstd::utf8::encode_utf8(s@)),
            p@.wf(),
    {
        JsonParser {
            lexer: JsonLexer::new_from_string(s),
            current: Token::new(String::new(), JsonTokenType::NoToken),
            next: Token::new(String::new(), JsonTokenType::NoToken),
        }
    }

    /// The lookahead token.
    fn peek(&self) -> (t: &Token)
        ensures
            t.0@ == self@.next.0,
            t.1 == self@.next.1,
    {
        &self.next
    }

    /// Shift `next` into `current` and pull a fresh token into `next`;
    /// fails once `current` is `EOF`, and passes lexer errors through.
    fn advance(&mut self) -> (r: Result<(), String>)
        requires
            old(self)@.wf(),
        ensures
            final(self)@.wf(),
            match spec_advance(old(self)@) {
                AdvanceResult::Next(p2) => r matches Ok(_) && final(self)@ == p2,
                AdvanceResult::Fail(e) => r matches Err(s) && s@ == e,
            },
    {
        if self.current.1 == JsonTokenType::EOF {
            return Err(String::from_str("unexpected EOF"));
        }
        let t = match self.lexer.next_token() {
            Ok(t) => t,
            Err(e) => {
                return Err(String::from_str(e));
            }
        };
        self.current = Token::new(self.next.0.clone(), self.next.1);
        self.next = t;
        Ok(())
    }

    /// Consume the lookahead and answer `true` when it has the given kind;
    /// else leave the state unchanged and answer `false`.
    fn try_match(&mut self, token_type: JsonTokenType) -> (r: Result<bool, String>)
        requires
            old(self)@.wf(),
        ensures
            final(self)@.wf(),
            match spec_try_match(old(self)@, token_type) {
                TryMatchResult::Matched(b, p2) => r == Ok::<bool, String>(b) && final(self)@ == p2,
                TryMatchResult::Fail(e) => r matches Err(s) && s@ == e,
            },
    {
        if self.next.1 == token_type {
            match self.advance() {
                Ok(_) => Ok(true),
                Err(e) => Err(e),
            }
        } else {
            Ok(false)
        }
    }

    /// Consume the lookahead when it has the expected kind and hand it
    /// back; else fail with `msg`.
    fn consume(&mut self, expected: JsonTokenType, msg: String) -> (r: Result<Token, String>)
        requires
            old(self)@.wf(),
        ensures
            final(self)@.wf(),
            match spec_consume(old(self)@, expected, msg@) {
                ConsumeResult::Got(t, p2) => (r matches Ok(tk) && tk.0@ == t.0 && tk.1 == t.1)
                    && final(self)@ == p2,
                ConsumeResult::Fail(e) => r matches Err(s) && s@ == e,
            },
    {
        if self.next.1 == expected {
            let t = Token::new(self.next.0.clone(), self.next.1);
            match self.advance() {
                Ok(_) => Ok(t),
                Err(e) => Err(e),
            }
        } else {
            Err(msg)
        }
    }

    /// The string rule: a `String` token becomes a `JsonValue::String`.
    fn parse_string(&mut self) -> (r: Result<JsonValue, String>)
        requires
            old(self)@.wf(),
        ensures
            final(self)@.wf(),
            match spec_parse_string(old(self)@) {
                ParseResult::Val(vm, p2) => (r matches Ok(v) && v.model() == vm) && final(self)@
                    == p2,
                ParseResult::Fail(e) => r matches Err(s) && s@ == e,
                ParseResult::Spent => false,
            },
    {
        match self.consume(JsonTokenType::String, String::from_str("Expected string")) {
            Ok(t) => Ok(JsonValue::String(t.0)),
            Err(e) => Err(e),
        }
    }

    /// The number rule: a `Number` token becomes a `JsonValue::Number`
    /// carrying the digit lexeme.
    fn parse_number(&mut self) -> (r: Result<JsonValue, String>)
        requires
            old(self)@.wf(),
        ensures
            final(self)@.wf(),
            match spec_parse_number(old(self)@) {
                ParseResult::Val(vm, p2) => (r matches Ok(v) && v.model() == vm) && final(self)@
                    == p2,
                ParseResult::Fail(e) => r matches Err(s) && s@ == e,
                ParseResult::Spent => false,
            },
    {
        match self.consume(JsonTokenType::Number, String::from_str("Expected number")) {
            Ok(t) => Ok(JsonValue::Number(t.0)),
            Err(e) => Err(e),
        }
    }

    /// The boolean rule: a `Boolean` token becomes a `JsonValue::Boolean`.
    fn parse_boolean(&mut self) -> (r: Result<JsonValue, String>)
        requires
            old(self)@.wf(),
        ensures
            final(self)@.wf(),
            match spec_parse_boolean(old(self)@) {
                ParseResult::Val(vm, p2) => (r matches Ok(v) && v.model() == vm) && final(self)@
                    == p2,
                ParseResult::Fail(e) => r matches Err(s) && s@ == e,
                ParseResult::Spent => false,
            },
    {
        match self.consume(JsonTokenType::Boolean, String::from_str("Expected boolean")) {
            Ok(t) => {
                let truth = String::from_str("true");
                Ok(JsonValue::Boolean(t.0 == truth))
            }
            Err(e) => Err(e),
        }
    }

    /// The value rule: dispatch on the lookahead kind.
    fn parse_value(&mut self) -> (r: Result<JsonValue, String>)
        requires
            old(self)@.wf(),
        ensures
            final(self)@.wf(),
            match spec_parse_value(old(self)@) {
                ParseResult::Val(vm, p2) => (r matches Ok(v) && v.model() == vm) && final(self)@
                    == p2,
                ParseResult::Fail(e) => r matches Err(s) && s@ == e,
                ParseResult::Spent => false,
            },
        decreases old(self)@.fuel(), 1int,
    {
        match self.peek().1 {
            JsonTokenType::String => self.parse_string(),
            JsonTokenType::Number => self.parse_number(),
            JsonTokenType::LeftBrace => {
                match self.advance() {
                    Err(e) => Err(e),
                    Ok(_) => {
                        proof {
                            lemma_advance_fuel(old(self)@);
                        }
                        self.parse_object()
                    }
                }
            }
            JsonTokenType::LeftBracket => {
                match self.advance() {
                    Err(e) => Err(e),
                    Ok(_) => {
                        proof {
                            lemma_advance_fuel(old(self)@);
                        }
                        self.parse_array()
                    }
                }
            }
            JsonTokenType::Boolean => self.parse_boolean(),
            JsonTokenType::Null => {
                match self.advance() {
                    Err(e) => Err(e),
                    Ok(_) => Ok(JsonValue::Nil),
                }
            }
            _ => Err(String::from_str("Unexpected input")),
        }
    }

    /// The object rule, entered after `{` was consumed.
    fn parse_object(&mut self) -> (r: Result<JsonValue, String>)
        requires
            old(self)@.wf(),
        ensures
            final(self)@.wf(),
            match spec_parse_object(old(self)@) {
                ParseResult::Val(vm, p2) => (r matches Ok(v) && v.model() == vm) && final(self)@
                    == p2,
                ParseResult::Fail(e) => r matches Err(s) && s@ == e,
                ParseResult::Spent => false,
            },
        decreases old(self)@.fuel(), 3int,
    {
        proof {
            lemma_parse_object_fuel(old(self)@);
        }
        let mut obj: Vec<(String, JsonValue)> = Vec::new();
        if self.peek().1 == JsonTokenType::RightBrace {
            match self.advance() {
                Ok(_) => {}
                Err(e) => {
                    return Err(e);
                }
            }
            return Ok(JsonValue::Object(obj));
        }
        loop
            invariant
                self@.wf(),
                self@.fuel() <= old(self)@.fuel(),
                spec_parse_object(old(self)@) == spec_parse_members(self@, entries_model(obj@)),
            decreases self@.fuel(),
        {
            let ghost p0 = self@;
            let ghost acc0 = entries_model(obj@);
            proof {
                lemma_parse_members_fuel(p0, acc0);
                lemma_consume_fuel(p0, JsonTokenType::String, "Expected string"@);
            }
            let key = match self.parse_string() {
                Ok(k) => k,
                Err(e) => {
                    return Err(e);
                }
            };
            let ghost p1 = self@;
            proof {
                lemma_consume_fuel(p1, JsonTokenType::Colon, "Expected ':' after object key"@);
            }
            match self.consume(
                JsonTokenType::Colon,
                String::from_str("Expected ':' after object key"),
            ) {
                Ok(_) => {}
                Err(e) => {
                    return Err(e);
                }
            }
            let ghost p2 = self@;
            proof {
                lemma_parse_value_fuel(p2);
            }
            let value = match self.parse_value() {
                Ok(v) => v,
                Err(e) => {
                    return Err(e);
                }
            };
            let ghost p3 = self@;
            let ghost v_model = value.model();
            if let JsonValue::String(k) = key {
                obj_insert_exec(&mut obj, k, value);
            }
            proof {
                lemma_try_match_fuel(p3, JsonTokenType::Comma);
                lemma_try_match_fuel(p3, JsonTokenType::RightBrace);
            }
            match self.try_match(JsonTokenType::Comma) {
                Err(e) => {
                    return Err(e);
                }
                Ok(true) => {}
                Ok(false) => {
                    match self.try_match(JsonTokenType::RightBrace) {
                        Err(e) => {
                            return Err(e);
                        }
                        Ok(true) => {
                            return Ok(JsonValue::Object(obj));
                        }
                        Ok(false) => {
                            return Err(String::from_str("Expected ',' or '}'"));
                        }
                    }
                }
            }
        }
    }

    /// The array rule, entered after `[` was consumed.
    fn parse_array(&mut self) -> (r: Result<JsonValue, String>)
        requires
            old(self)@.wf(),
        ensures
            final(self)@.wf(),
            match spec_parse_array(old(self)@) {
                ParseResult::Val(vm, p2) => (r matches Ok(v) && v.model() == vm) && final(self)@
                    == p2,
                ParseResult::Fail(e) => r matches Err(s) && s@ == e,
                ParseResult::Spent => false,
            },
        decreases old(self)@.fuel(), 3int,
    {
        proof {
            lemma_parse_array_fuel(old(self)@);
        }
        let mut arr: Vec<JsonValue> = Vec::new();
        if self.peek().1 == JsonTokenType::RightBracket {
            match self.advance() {
                Ok(_) => {}
                Err(e) => {
                    return Err(e);
                }
            }
            return Ok(JsonValue::Array(arr));
        }
        loop
            invariant
                self@.wf(),
                self@.fuel() <= old(self)@.fuel(),
                spec_parse_array(old(self)@) == spec_parse_elements(self@, elements_model(arr@)),
            decreases self@.fuel(),
        {
            let ghost p0 = self@;
            let ghost acc0 = elements_model(arr@);
            proof {
                lemma_parse_elements_fuel(p0, acc0);
                lemma_parse_value_fuel(p0);
            }
            let value = match self.parse_value() {
                Ok(v) => v,
                Err(e) => {
                    return Err(e);
                }
            };
            let ghost p3 = self@;
            let ghost v_model = value.model();
            let ghost arr0 = arr@;
            arr.push(value);
            proof {
                assert(arr@.drop_last() =~= arr0);
                lemma_elements_push(acc0, arr@, v_model);
                lemma_try_match_fuel(p3, JsonTokenType::Comma);
                lemma_try_match_fuel(p3, JsonTokenType::RightBracket);
            }
            match self.try_match(JsonTokenType::Comma) {
                Err(e) => {
                    return Err(e);
                }
                Ok(true) => {}
                Ok(false) => {
                    match self.try_match(JsonTokenType::RightBracket) {
                        Err(e) => {
                            return Err(e);
                        }
                        Ok(true) => {
                            return Ok(JsonValue::Array(arr));
                        }
                        Ok(false) => {
                            return Err(String::from_str("Expected ',' or ']'"));
                        }
                    }
                }
            }
        }
    }

    /// Parse one whole document rooted at an object: the value tree, or the
    /// first error.  The result is exactly that of [`spec_parse`] on the
    /// state before the call.
    pub fn parse(&mut self) -> (r: Result<JsonValue, String>)
        requires
            old(self)@.wf(),
        ensures
            final(self)@.wf(),
            match spec_parse(old(self)@) {
                ParseResult::Val(vm, p2) => (r matches Ok(v) && v.model() == vm) && final(self)@
                    == p2,
                ParseResult::Fail(e) => r matches Err(s) && s@ == e,
                ParseResult::Spent => false,
            },
    {
        match self.advance() {
            Ok(_) => {}
            Err(e) => {
                return Err(e);
            }
        }
        match self.consume(
            JsonTokenType::LeftBrace,
            String::from_str("Expected '{' at start of object"),
        ) {
            Ok(_) => {}
            Err(e) => {
                return Err(e);
            }
        }
        proof {
            lemma_parse_object_fuel(self@);
        }
        self.parse_object()
    }
}

/// Pushing an element extends the element-list model by its model.
pub proof fn lemma_elements_push(acc: Seq<ValueModel>, a: Seq<JsonValue>, v: ValueModel)
    requires
        a.len() > 0,
        elements_model(a.drop_last()) == acc,
        a.last().model() == v,
    ensures
        elements_model(a) == acc.push(v),
{
    lemma_elements_model(a);
    lemma_elements_model(a.drop_last());
    assert(elements_model(a) =~= acc.push(v));
}

/// Insert `key -> value` into an entry vector: replace the value of the
/// first entry whose key equals `key`, or append a new entry.
fn obj_insert_exec(obj: &mut Vec<(String, JsonValue)>, key: String, value: JsonValue)
    ensures
        entries_model(final(obj)@) == obj_insert(entries_model(old(obj)@), key@, value.model()),
{
    proof {
        lemma_entries_model(obj@);
    }
    let ghost acc0 = entries_model(old(obj)@);
    let mut i: usize = 0;
    loop
        invariant
            i <= obj@.len(),
            obj@ == old(obj)@,
            acc0 == entries_model(obj@),
            forall|j: int| 0 <= j < i ==> obj@[j].0@ != key@,
        decreases obj@.len() - i,
    {
        if i >= obj.len() {
            proof {
                lemma_entries_model(obj@);
                assert(forall|j: int| 0 <= j < acc0.len() ==> acc0[j].0 != key@);
                lemma_obj_insert_append(acc0, key@, value.model());
            }
            let ghost v_model = value.model();
            obj.push((key, value));
            proof {
                lemma_entries_model(obj@);
                assert(entries_model(obj@) =~= acc0.push((key@, v_model)));
            }
            return ;
        }
        let matched = obj[i].0 == key;
        if matched {
            proof {
                lemma_entries_model(obj@);
                assert(acc0[i as int].0 == key@);
                lemma_obj_insert_at(acc0, key@, value.model(), i as int);
            }
            let ghost v_model = value.model();
            obj.set(i, (key, value));
            proof {
                lemma_entries_model(obj@);
                assert(entries_model(obj@) =~= acc0.update(i as int, (key@, v_model)));
            }
            return ;
        }
        i = i + 1;
    }
}

/// Two parser states that agree on the lookahead window and on the lexer's
/// unconsumed bytes and pushback.
pub open spec fn parser_sim(p1: ParserModel, p2: ParserModel) -> bool {
    p1.current == p2.current && p1.next == p2.next && crate::json::lexer::same_rest(
        p1.lexer,
        p2.lexer,
    )
}

/// Two rule outcomes that carry the same value or the same error, with
/// agreeing states.
pub open spec fn result_sim(r1: ParseResult, r2: ParseResult) -> bool {
    match (r1, r2) {
        (ParseResult::Val(v1, q1), ParseResult::Val(v2, q2)) => v1 == v2 && parser_sim(q1, q2),
        (ParseResult::Fail(e1), ParseResult::Fail(e2)) => e1 == e2,
        (ParseResult::Spent, ParseResult::Spent) => true,
        _ => false,
    }
}

/// Advancing depends only on the lookahead window and the unconsumed
/// bytes.
pub proof fn lemma_advance_sim(p1: ParserModel, p2: ParserModel)
    requires
        p1.wf(),
        p2.wf(),
        parser_sim(p1, p2),
    ensures
        match (spec_advance(p1), spec_advance(p2)) {
            (AdvanceResult::Next(q1), AdvanceResult::Next(q2)) => q1.wf() && q2.wf()
                && parser_sim(q1, q2),
            (AdvanceResult::Fail(e1), AdvanceResult::Fail(e2)) => e1 == e2,
            _ => false,
        },
{
    if p1.current.1 != JsonTokenType::EOF {
        crate::json::lexer::lemma_next_token_sim(p1.lexer, p2.lexer);
        lemma_next_token_fuel(p1.lexer);
        lemma_next_token_fuel(p2.lexer);
    }
}

/// Consuming depends only on the lookahead window and the unconsumed
/// bytes.
pub proof fn lemma_consume_sim(
    p1: ParserModel,
    p2: ParserModel,
    expected: JsonTokenType,
    msg: Seq<char>,
)
    requires
        p1.wf(),
        p2.wf(),
        parser_sim(p1, p2),
    ensures
        match (spec_consume(p1, expected, msg), spec_consume(p2, expected, msg)) {
            (ConsumeResult::Got(t1, q1), ConsumeResult::Got(t2, q2)) => t1 == t2 && q1.wf()
                && q2.wf() && parser_sim(q1, q2),
            (ConsumeResult::Fail(e1), ConsumeResult::Fail(e2)) => e1 == e2,
            _ => false,
        },
{
    lemma_advance_sim(p1, p2);
}

/// Matching depends only on the lookahead window and the unconsumed bytes.
pub proof fn lemma_try_match_sim(p1: ParserModel, p2: ParserModel, kind: JsonTokenType)
    requires
        p1.wf(),
        p2.wf(),
        parser_sim(p1, p2),
    ensures
        match (spec_try_match(p1, kind), spec_try_match(p2, kind)) {
            (TryMatchResult::Matched(b1, q1), TryMatchResult::Matched(b2, q2)) => b1 == b2
                && q1.wf() && q2.wf() && parser_sim(q1, q2),
            (TryMatchResult::Fail(e1), TryMatchResult::Fail(e2)) => e1 == e2,
            _ => false,
        },
{
    lemma_advance_sim(p1, p2);
}

/// The value rule depends only on the lookahead window and the unconsumed
/// bytes.
pub proof fn lemma_parse_value_sim(p1: ParserModel, p2: ParserModel)
    requires
        p1.wf(),
        p2.wf(),
        parser_sim(p1, p2),
    ensures
        result_sim(spec_parse_value(p1), spec_parse_value(p2)),
    decreases p1.fuel(), 1int,
{
    if p1.next.1 == JsonTokenType::String {
        lemma_consume_sim(p1, p2, JsonTokenType::String, "Expected string"@);
    } else if p1.next.1 == JsonTokenType::Number {
        lemma_consume_sim(p1, p2, JsonTokenType::Number, "Expected number"@);
    } else if p1.next.1 == JsonTokenType::LeftBrace {
        lemma_advance_fuel(p1);
        lemma_advance_sim(p1, p2);
        match (spec_advance(p1), spec_advance(p2)) {
            (AdvanceResult::Next(q1), AdvanceResult::Next(q2)) => {
                lemma_parse_object_sim(q1, q2);
            }
            _ => {}
        }
    } else if p1.next.1 == JsonTokenType::LeftBracket {
        lemma_advance_fuel(p1);
        lemma_advance_sim(p1, p2);
        match (spec_advance(p1), spec_advance(p2)) {
            (AdvanceResult::Next(q1), AdvanceResult::Next(q2)) => {
                lemma_parse_array_sim(q1, q2);
            }
            _ => {}
        }
    } else if p1.next.1 == JsonTokenType::Boolean {
        lemma_consume_sim(p1, p2, JsonTokenType::Boolean, "Expected boolean"@);
    } else if p1.next.1 == JsonTokenType::Null {
        lemma_advance_sim(p1, p2);
    } else {
    }
}

/// The object rule depends only on the lookahead window and the unconsumed
/// bytes.
pub proof fn lemma_parse_object_sim(p1: ParserModel, p2: ParserModel)
    requires
        p1.wf(),
        p2.wf(),
        parser_sim(p1, p2),
    ensures
        result_sim(spec_parse_object(p1), spec_parse_object(p2)),
    decreases p1.fuel(), 3int,
{
    if p1.next.1 == JsonTokenType::RightBrace {
        lemma_advance_sim(p1, p2);
    } else {
        lemma_parse_members_sim(p1, p2, Seq::empty());
    }
}

/// The member-list rule depends only on the lookahead window and the
/// unconsumed bytes.
pub proof fn lemma_parse_members_sim(
    p1: ParserModel,
    p2: ParserModel,
    acc: Seq<(Seq<char>, ValueModel)>,
)
    requires
        p1.wf(),
        p2.wf(),
        parser_sim(p1, p2),
    ensures
        result_sim(spec_parse_members(p1, acc), spec_parse_members(p2, acc)),
    decreases p1.fuel(), 2int,
{
    lemma_consume_fuel(p1, JsonTokenType::String, "Expected string"@);
    lemma_consume_fuel(p2, JsonTokenType::String, "Expected string"@);
    lemma_consume_sim(p1, p2, JsonTokenType::String, "Expected string"@);
    match (spec_consume(p1, JsonTokenType::String, "Expected string"@), spec_consume(
        p2,
        JsonTokenType::String,
        "Expected string"@,
    )) {
        (ConsumeResult::Got(key, q1), ConsumeResult::Got(key2, q2)) => {
            lemma_consume_fuel(q1, JsonTokenType::Colon, "Expected ':' after object key"@);
            lemma_consume_fuel(q2, JsonTokenType::Colon, "Expected ':' after object key"@);
            lemma_consume_sim(q1, q2, JsonTokenType::Colon, "Expected ':' after object key"@);
            match (spec_consume(q1, JsonTokenType::Colon, "Expected ':' after object key"@),
            spec_consume(q2, JsonTokenType::Colon, "Expected ':' after object key"@)) {
                (ConsumeResult::Got(_, r1), ConsumeResult::Got(_, r2)) => {
                    lemma_parse_value_fuel(r1);
                    lemma_parse_value_fuel(r2);
                    lemma_parse_value_sim(r1, r2);
                    match (spec_parse_value(r1), spec_parse_value(r2)) {
                        (ParseResult::Val(v, s1), ParseResult::Val(v2, s2)) => {
                            lemma_try_match_fuel(s1, JsonTokenType::Comma);
                            lemma_try_match_fuel(s2, JsonTokenType::Comma);
                            lemma_try_match_sim(s1, s2, JsonTokenType::Comma);
                            match (spec_try_match(s1, JsonTokenType::Comma), spec_try_match(
                                s2,
                                JsonTokenType::Comma,
                            )) {
                                (
                                    TryMatchResult::Matched(true, t1),
                                    TryMatchResult::Matched(true, t2),
                                ) => {
                                    lemma_parse_members_sim(t1, t2, obj_insert(acc, key.0, v));
                                }
                                (
                                    TryMatchResult::Matched(false, _),
                                    TryMatchResult::Matched(false, _),
                                ) => {
                                    lemma_try_match_sim(s1, s2, JsonTokenType::RightBrace);
                                }
                                _ => {}
                            }
                        }
                        _ => {}
                    }
                }
                _ => {}
            }
        }
        _ => {}
    }
}

/// The array rule depends only on the lookahead window and the unconsumed
/// bytes.
pub proof fn lemma_parse_array_sim(p1: ParserModel, p2: ParserModel)
    requires
        p1.wf(),
        p2.wf(),
        parser_sim(p1, p2),
    ensures
        result_sim(spec_parse_array(p1), spec_parse_array(p2)),
    decreases p1.fuel(), 3int,
{
    if p1.next.1 == JsonTokenType::RightBracket {
        lemma_advance_sim(p1, p2);
    } else {
        lemma_parse_elements_sim(p1, p2, Seq::empty());
    }
}

/// The element-list rule depends only on the lookahead window and the
/// unconsumed bytes.
pub proof fn lemma_parse_elements_sim(p1: ParserModel, p2: ParserModel, acc: Seq<ValueModel>)
    requires
        p1.wf(),
        p2.wf(),
        parser_sim(p1, p2),
    ensures
        result_sim(spec_parse_elements(p1, acc), spec_parse_elements(p2, acc)),
    decreases p1.fuel(), 2int,
{
    lemma_parse_value_fuel(p1);
    lemma_parse_value_fuel(p2);
    lemma_parse_value_sim(p1, p2);
    match (spec_parse_value(p1), spec_parse_value(p2)) {
        (ParseResult::Val(v, s1), ParseResult::Val(v2, s2)) => {
            lemma_try_match_fuel(s1, JsonTokenType::Comma);
            lemma_try_match_fuel(s2, JsonTokenType::Comma);
            lemma_try_match_sim(s1, s2, JsonTokenType::Comma);
            match (spec_try_match(s1, JsonTokenType::Comma), spec_try_match(
                s2,
                JsonTokenType::Comma,
            )) {
                (TryMatchResult::Matched(true, t1), TryMatchResult::Matched(true, t2)) => {
                    lemma_parse_elements_sim(t1, t2, acc.push(v));
                }
                (TryMatchResult::Matched(false, _), TryMatchResult::Matched(false, _)) => {
                    lemma_try_match_sim(s1, s2, JsonTokenType::RightBracket);
                }
                _ => {}
            }
        }
        _ => {}
    }
}

/// Leading whitespace never changes the parse: for any ASCII whitespace
/// byte, the document with that byte prepended parses to the same value
/// tree, or fails with the same error, as the document itself.  Applied
/// repeatedly, any amount of such whitespace may stand before the first
/// token.
pub proof fn lemma_leading_whitespace(bytes: Seq<u8>, b: u8)
    requires
        b < 0x80,
        crate::json::lexer::is_json_whitespace(b as char),
    ensures
        match (spec_parse_doc(seq![b] + bytes), spec_parse_doc(bytes)) {
            (ParseResult::Val(v1, _), ParseResult::Val(v2, _)) => v1 == v2,
            (ParseResult::Fail(e1), ParseResult::Fail(e2)) => e1 == e2,
            (ParseResult::Spent, ParseResult::Spent) => true,
            _ => false,
        },
{
    let p1 = spec_initial(seq![b] + bytes);
    let p2 = spec_initial(bytes);
    crate::json::lexer::lemma_whitespace_insertion(p2.lexer, b);
    assert(p2.lexer.bytes.take(0) + seq![b] + p2.lexer.bytes.skip(0) =~= seq![b] + bytes);
    lemma_next_token_fuel(p1.lexer);
    lemma_next_token_fuel(p2.lexer);
    match (spec_next_token(p1.lexer), spec_next_token(p2.lexer)) {
        (LexResult::Token(l1, k1, n1), LexResult::Token(l2, k2, n2)) => {
            let q1 = ParserModel { lexer: n1, current: p1.next, next: (l1, k1) };
            let q2 = ParserModel { lexer: n2, current: p2.next, next: (l2, k2) };
            lemma_consume_sim(q1, q2, JsonTokenType::LeftBrace, "Expected '{' at start of object"@);
            match (spec_consume(q1, JsonTokenType::LeftBrace, "Expected '{' at start of object"@),
            spec_consume(q2, JsonTokenType::LeftBrace, "Expected '{' at start of object"@)) {
                (ConsumeResult::Got(_, r1), ConsumeResult::Got(_, r2)) => {
                    lemma_parse_object_sim(r1, r2);
                }
                _ => {}
            }
        }
        _ => {}
    }
}

} // verus!
