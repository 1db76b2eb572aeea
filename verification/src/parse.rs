//! The recursive-descent parser: a token sequence to a [`SchemaValue`] tree.
//!
//! The grammar is tolerant of commas: members of an object may, but need
//! not, be separated by commas, and a trailing comma before the closing
//! brace is accepted. A bare identifier that is not `true`/`false` is
//! always read as an enum variant tag, optionally followed by one
//! brace-wrapped payload value; whether the tag is valid is decided later,
//! against the target type. Duplicate field names silently overwrite.

use vstd::prelude::*;

use crate::model::Val;
use crate::tokens::{toks_model, ParseError, ParseResult, Symbol, Tok, Token};
use crate::value::{
    fields_model, fields_unique, lemma_fields_model, string_is, sv_wf, val_model, SchemaValue,
};

verus! {

/// Parse of one value starting at token `i`: the value's model and the
/// position after it, or `None` on a grammar violation.
pub open spec fn spec_parse_value(ts: Seq<Tok>, i: nat) -> Option<(Val, nat)>
    decreases ts.len() - i, 0int,
{
    if i >= ts.len() {
        None
    } else {
        match ts[i as int] {
            Tok::Integer(n) => Some((Val::Integer(n), (i + 1) as nat)),
            Tok::Decimal(d) => Some((Val::Decimal(d), (i + 1) as nat)),
            Tok::Strg(s) => Some((Val::Strg(s), (i + 1) as nat)),
            Tok::Identifier(id) => if id == "true"@ {
                Some((Val::Bool(true), (i + 1) as nat))
            } else if id == "false"@ {
                Some((Val::Bool(false), (i + 1) as nat))
            } else {
                spec_parse_enum(id, ts, (i + 1) as nat)
            },
            Tok::Punctuation(sym) => if sym == Symbol::OpenBrace {
                spec_parse_array(ts, (i + 1) as nat)
            } else if sym == Symbol::OpenCurlyBrace {
                spec_parse_object(ts, (i + 1) as nat)
            } else {
                None
            },
        }
    }
}

/// Parse of an enum variant whose tag `id` was just consumed: an optional
/// brace-wrapped payload follows; without one the payload is `Null`.
pub open spec fn spec_parse_enum(id: Seq<char>, ts: Seq<Tok>, i: nat) -> Option<(Val, nat)>
    decreases ts.len() - i, 0int,
{
    if i < ts.len() && ts[i as int] == Tok::Punctuation(Symbol::OpenCurlyBrace) {
        match spec_parse_value(ts, (i + 1) as nat) {
            Some((v, j)) => if j < ts.len() && ts[j as int] == Tok::Punctuation(
                Symbol::CloseCurlyBrace,
            ) {
                Some((Val::EnumVariant(id, Box::new(v)), (j + 1) as nat))
            } else {
                None
            },
            None => None,
        }
    } else {
        Some((Val::EnumVariant(id, Box::new(Val::Null)), i))
    }
}

/// Parse of the members of an array whose opening brace was consumed and
/// which is not empty: one value, then either the closing brace or a
/// further member, with an optional comma in between.
pub open spec fn spec_parse_array_items(ts: Seq<Tok>, i: nat) -> Option<(Seq<Val>, nat)>
    decreases ts.len() - i, 1int,
{
    match spec_parse_value(ts, i) {
        Some((v, j)) => if i < j <= ts.len() {  // the parser always advances
            if j < ts.len() {
                if ts[j as int] == Tok::Punctuation(Symbol::CloseBrace) {
                    Some((seq![v], (j + 1) as nat))
                } else {
                    let next = if ts[j as int] == Tok::Punctuation(Symbol::Comma) {
                        (j + 1) as nat
                    } else {
                        j
                    };
                    match spec_parse_array_items(ts, next) {
                        Some((rest, k)) => Some((seq![v] + rest, k)),
                        None => None,
                    }
                }
            } else {
                None
            }
        } else {
            None
        },
        None => None,
    }
}

/// Parse of an array whose opening brace was just consumed.
pub open spec fn spec_parse_array(ts: Seq<Tok>, i: nat) -> Option<(Val, nat)>
    decreases ts.len() - i, 2int,
{
    if i < ts.len() && ts[i as int] == Tok::Punctuation(Symbol::CloseBrace) {
        Some((Val::Array(Seq::empty()), (i + 1) as nat))
    } else {
        match spec_parse_array_items(ts, i) {
            Some((items, j)) => Some((Val::Array(items), j)),
            None => None,
        }
    }
}

/// Parse of the members of an object whose opening brace was consumed:
/// fields and optional commas up to the closing brace, gathered into `acc`,
/// later fields overwriting earlier ones of the same name.
pub open spec fn spec_parse_object_items(
    ts: Seq<Tok>,
    i: nat,
    acc: Map<Seq<char>, Val>,
) -> Option<(Map<Seq<char>, Val>, nat)>
    decreases ts.len() - i, 1int,
{
    if i >= ts.len() {
        None
    } else {
        match ts[i as int] {
            Tok::Identifier(nm) => if i + 1 < ts.len() && ts[i + 1 as int] == Tok::Punctuation(
                Symbol::Colon,
            ) {
                match spec_parse_value(ts, (i + 2) as nat) {
                    Some((v, j)) => if i + 2 < j <= ts.len() {  // the parser always advances
                        spec_parse_object_items(ts, j, acc.insert(nm, v))
                    } else {
                        None
                    },
                    None => None,
                }
            } else {
                None
            },
            Tok::Punctuation(sym) => if sym == Symbol::Comma {
                spec_parse_object_items(ts, (i + 1) as nat, acc)
            } else if sym == Symbol::CloseCurlyBrace {
                Some((acc, (i + 1) as nat))
            } else {
                None
            },
            _ => None,
        }
    }
}

/// Parse of an object whose opening brace was just consumed.
pub open spec fn spec_parse_object(ts: Seq<Tok>, i: nat) -> Option<(Val, nat)>
    decreases ts.len() - i, 2int,
{
    match spec_parse_object_items(ts, i, Map::empty()) {
        Some((m, j)) => Some((Val::Object(m), j)),
        None => None,
    }
}

/// Parse of a whole definition document: the tokens must open with `{`;
/// tokens after the matching closing brace are ignored.
pub open spec fn spec_parse_document(ts: Seq<Tok>) -> Option<Val> {
    if ts.len() == 0 {
        None
    } else if ts[0] == Tok::Punctuation(Symbol::OpenCurlyBrace) {
        match spec_parse_object(ts, 1) {
            Some((v, _)) => Some(v),
            None => None,
        }
    } else {
        None
    }
}

/// The parser always advances: a successful parse ends past where it
/// began, and within the token sequence. The guards in the member parsers
/// that demand progress before recursing are therefore never the reason a
/// parse fails.
pub proof fn lemma_parse_progress(ts: Seq<Tok>, i: nat)
    requires
        i <= ts.len(),
    ensures
        spec_parse_value(ts, i) is Some ==> i < spec_parse_value(ts, i).unwrap().1 <= ts.len(),
        spec_parse_array(ts, i) is Some ==> i < spec_parse_array(ts, i).unwrap().1 <= ts.len(),
        spec_parse_array_items(ts, i) is Some ==> i < spec_parse_array_items(
            ts,
            i,
        ).unwrap().1 <= ts.len(),
        forall|id: Seq<char>|
            #[trigger] spec_parse_enum(id, ts, i) is Some ==> i <= spec_parse_enum(
                id,
                ts,
                i,
            ).unwrap().1 <= ts.len(),
        forall|acc: Map<Seq<char>, Val>|
            #[trigger] spec_parse_object_items(ts, i, acc) is Some ==> i < spec_parse_object_items(
                ts,
                i,
                acc,
            ).unwrap().1 <= ts.len(),
        spec_parse_object(ts, i) is Some ==> i < spec_parse_object(ts, i).unwrap().1 <= ts.len(),
    decreases ts.len() - i, 4int,
{
    if i < ts.len() {
        lemma_parse_progress(ts, i + 1);
        if i + 1 < ts.len() {
            lemma_parse_progress(ts, i + 2);
        }
        assert forall|id: Seq<char>| #[trigger] spec_parse_enum(id, ts, i) is Some implies i
            <= spec_parse_enum(id, ts, i).unwrap().1 <= ts.len() by {
            if i < ts.len() && ts[i as int] == Tok::Punctuation(Symbol::OpenCurlyBrace) {
                lemma_parse_progress(ts, i + 1);
            }
        }
        assert forall|acc: Map<Seq<char>, Val>|
            #[trigger] spec_parse_object_items(ts, i, acc) is Some implies i
            < spec_parse_object_items(ts, i, acc).unwrap().1 <= ts.len() by {
            let r = spec_parse_object_items(ts, i, acc);
            match ts[i as int] {
                Tok::Identifier(nm) => {
                    assert(i + 1 < ts.len() && ts[i + 1 as int] == Tok::Punctuation(Symbol::Colon));
                    assert(spec_parse_value(ts, (i + 2) as nat) is Some);
                    let (v, j) = spec_parse_value(ts, (i + 2) as nat).unwrap();
                    assert(i + 2 < j <= ts.len());
                    lemma_parse_progress(ts, j);
                    assert(r == spec_parse_object_items(ts, j, acc.insert(nm, v)));
                },
                Tok::Punctuation(sym) => {
                    if sym == Symbol::Comma {
                        assert(r == spec_parse_object_items(ts, (i + 1) as nat, acc));
                    } else {
                        assert(sym == Symbol::CloseCurlyBrace);
                    }
                },
                _ => {
                    assert(false);
                },
            }
        }
        match spec_parse_value(ts, i) {
            Some((v, j)) => {
                if i < j <= ts.len() && j < ts.len() {
                    lemma_parse_progress(ts, j);
                    lemma_parse_progress(ts, (j + 1) as nat);
                }
            },
            None => {},
        }
        if spec_parse_object(ts, i) is Some {
            assert(spec_parse_object_items(ts, i, Map::empty()) is Some);
        }
    }
}

/// Replacing the entry that holds a field's latest value models a map
/// insert, just as appending a fresh entry does.
proof fn lemma_fields_model_update(fields: Seq<(String, SchemaValue)>, k: int, p: (String, SchemaValue))
    requires
        fields_unique(fields),
        0 <= k < fields.len(),
        fields[k].0@ == p.0@,
    ensures
        fields_model(fields.update(k, p)) == fields_model(fields).insert(p.0@, p.1@),
    decreases fields,
{
    let updated = fields.update(k, p);
    if k == fields.len() - 1 {
        assert(updated.drop_last() =~= fields.drop_last());
        assert(fields_model(updated) == fields_model(fields.drop_last()).insert(p.0@, p.1@));
        assert(fields_model(fields).insert(p.0@, p.1@) =~= fields_model(fields.drop_last()).insert(
            p.0@,
            p.1@,
        ));
    } else {
        let last = fields[fields.len() - 1];
        assert(updated.drop_last() =~= fields.drop_last().update(k, p));
        assert(fields_unique(fields.drop_last()));
        assert(fields.drop_last()[k] == fields[k]);
        lemma_fields_model_update(fields.drop_last(), k, p);
        assert(fields[k].0@ != last.0@);
        assert(fields_model(fields.drop_last()).insert(p.0@, p.1@).insert(last.0@, last.1@)
            =~= fields_model(fields.drop_last()).insert(last.0@, last.1@).insert(p.0@, p.1@));
    }
}

/// Puts one parsed field into an object's field list: a field of that name
/// is overwritten, a new name is appended. Field names stay unique.
#[verifier::loop_isolation(false)]
fn object_insert(fields: &mut Vec<(String, SchemaValue)>, name: String, value: SchemaValue)
    requires
        fields_unique(old(fields)@),
    ensures
        fields_unique(final(fields)@),
        fields_model(final(fields)@) == fields_model(old(fields)@).insert(name@, value@),
        (forall|k: int| 0 <= k < old(fields)@.len() ==> sv_wf(#[trigger] old(fields)@[k].1))
            && sv_wf(value) ==> forall|k: int|
            0 <= k < final(fields)@.len() ==> sv_wf(#[trigger] final(fields)@[k].1),
{
    let ghost snapshot = fields@;
    let mut k: usize = 0;
    while k < fields.len()
        invariant
            k <= fields@.len(),
            fields@ == snapshot,
            fields_unique(snapshot),
            forall|m: int| 0 <= m < k ==> (#[trigger] snapshot[m]).0@ != name@,
        decreases fields@.len() - k,
    {
        if fields[k].0 == name {
            let pair = (name, value);
            let ghost gp = pair;
            proof {
                lemma_fields_model_update(snapshot, k as int, gp);
            }
            fields.set(k, pair);
            proof {
                assert(fields@ == snapshot.update(k as int, gp));
                assert(fields_model(fields@) == fields_model(snapshot).insert(name@, value@));
                assert forall|k1: int, k2: int| 0 <= k1 < k2 < fields@.len() implies (
                #[trigger] fields@[k1]).0@ != (#[trigger] fields@[k2]).0@ by {
                    assert(snapshot[k1].0@ != snapshot[k2].0@);
                }
                if (forall|m: int| 0 <= m < snapshot.len() ==> sv_wf(#[trigger] snapshot[m].1))
                    && sv_wf(value) {
                    assert forall|m: int| 0 <= m < fields@.len() implies sv_wf(
                        #[trigger] fields@[m].1,
                    ) by {
                        if m != k {
                            assert(fields@[m] == snapshot[m]);
                        }
                    }
                }
            }
            return ;
        }
        k = k + 1;
    }
    fields.push((name, value));
    proof {
        assert(fields@.drop_last() =~= snapshot);
        if (forall|m: int| 0 <= m < snapshot.len() ==> sv_wf(#[trigger] snapshot[m].1))
            && sv_wf(value) {
            assert forall|m: int| 0 <= m < fields@.len() implies sv_wf(
                #[trigger] fields@[m].1,
            ) by {
                if m < snapshot.len() {
                    assert(fields@[m] == snapshot[m]);
                }
            }
        }
    }
}

/// Reads the single value a token stands for, starting at `*index`;
/// `[` and `{` open an array or object, an identifier that is not a
/// boolean literal opens an enum variant.
pub fn parse_value(tokens: &Vec<Token>, index: &mut usize) -> (r: ParseResult<SchemaValue>)
    requires
        *old(index) <= tokens@.len(),
    ensures
        match r {
            Ok(v) => spec_parse_value(toks_model(tokens@), *old(index) as nat) == Some(
                (v@, *final(index) as nat),
            ) && *old(index) < *final(index) <= tokens@.len() && sv_wf(v),
            Err(_) => spec_parse_value(toks_model(tokens@), *old(index) as nat) is None,
        },
    decreases tokens@.len() - *index, 0int,
{
    let ghost ts = toks_model(tokens@);
    if *index < tokens.len() {
        let i = *index;
        *index = i + 1;
        let token = &tokens[i];
        proof {
            assert(ts[i as int] == tokens@[i as int]@);
        }
        match token {
            Token::Integer(num) => Ok(SchemaValue::Integer(*num)),
            Token::Decimal(text) => Ok(SchemaValue::Decimal(text.clone())),
            Token::Strg(text) => Ok(SchemaValue::Strg(text.clone())),
            Token::Identifier(ident) => {
                if string_is(ident, "true") {
                    Ok(SchemaValue::Bool(true))
                } else if string_is(ident, "false") {
                    Ok(SchemaValue::Bool(false))
                } else {
                    // Assume this is an enum variant; whether the tag is
                    // valid is decided against the target type later.
                    parse_enum(ident.clone(), tokens, index)
                }
            },
            Token::Punctuation(symbol) => {
                if *symbol == Symbol::OpenBrace {
                    parse_array(tokens, index)
                } else if *symbol == Symbol::OpenCurlyBrace {
                    parse_object(tokens, index)
                } else {
                    Err(ParseError { message: "Invalid token found while parsing value.", index: i })
                }
            },
        }
    } else {
        Err(
            ParseError {
                message: "Reached end of token stream while trying to parse value.",
                index: *index,
            },
        )
    }
}

/// Reads the members of an array whose opening brace was just consumed.
#[verifier::loop_isolation(false)]
fn parse_array(tokens: &Vec<Token>, index: &mut usize) -> (r: ParseResult<SchemaValue>)
    requires
        *old(index) <= tokens@.len(),
    ensures
        match r {
            Ok(v) => spec_parse_array(toks_model(tokens@), *old(index) as nat) == Some(
                (v@, *final(index) as nat),
            ) && *old(index) < *final(index) <= tokens@.len() && sv_wf(v),
            Err(_) => spec_parse_array(toks_model(tokens@), *old(index) as nat) is None,
        },
    decreases tokens@.len() - *index, 1int,
{
    let ghost ts = toks_model(tokens@);
    let ghost entry = *index as nat;
    let mut vector: Vec<SchemaValue> = Vec::new();
    // Special case: an empty array `[]`.
    if *index < tokens.len() {
        proof {
            assert(ts[*index as int] == tokens@[*index as int]@);
        }
        match &tokens[*index] {
            Token::Punctuation(symbol) => {
                if *symbol == Symbol::CloseBrace {
                    *index = *index + 1;
                    proof {
                        assert(crate::value::array_model(vector@) =~= Seq::<Val>::empty());
                    }
                    return Ok(SchemaValue::Array(vector));
                }
            },
            _ => {},
        }
    }
    assert(!(entry < ts.len() && ts[entry as int] == Tok::Punctuation(Symbol::CloseBrace)));
    while *index < tokens.len()
        invariant
            entry <= *index <= tokens@.len(),
            ts == toks_model(tokens@),
            !(entry < ts.len() && ts[entry as int] == Tok::Punctuation(Symbol::CloseBrace)),
            spec_parse_array_items(ts, entry) == opt_prepend(
                crate::value::array_model(vector@),
                spec_parse_array_items(ts, *index as nat),
            ),
            forall|m: int| 0 <= m < vector@.len() ==> sv_wf(#[trigger] vector@[m]),
        decreases tokens@.len() - *index,
    {
        let ghost cur = *index as nat;
        let ghost pre = crate::value::array_model(vector@);
        let schema_value = match parse_value(tokens, index) {
            Ok(v) => v,
            Err(e) => {
                proof {
                    assert(spec_parse_array_items(ts, cur) is None);
                    assert(spec_parse_array_items(ts, entry) is None);
                    assert(spec_parse_array(ts, entry) is None);
                }
                return Err(e);
            },
        };
        let ghost v_model = schema_value@;
        let ghost j = *index as nat;
        let ghost vec0 = vector@;
        vector.push(schema_value);
        proof {
            assert(vector@.drop_last() =~= vec0);
            assert(crate::value::array_model(vector@) =~= pre.push(v_model));
        }
        if *index >= tokens.len() {
            proof {
                assert(spec_parse_array_items(ts, cur) is None);
                assert(spec_parse_array(ts, entry) is None);
            }
            return Err(ParseError { message: "Reached EOF while parsing array.", index: *index });
        }
        proof {
            assert(ts[*index as int] == tokens@[*index as int]@);
        }
        let is_close = match &tokens[*index] {
            Token::Punctuation(symbol) => *symbol == Symbol::CloseBrace,
            _ => false,
        };
        let is_comma = match &tokens[*index] {
            Token::Punctuation(symbol) => *symbol == Symbol::Comma,
            _ => false,
        };
        if is_close {
            *index = *index + 1;
            proof {
                assert(spec_parse_array_items(ts, cur) == Some((seq![v_model], (j + 1) as nat)));
                assert(pre + seq![v_model] =~= pre.push(v_model));
                assert(spec_parse_array(ts, entry) == Some(
                    (Val::Array(pre.push(v_model)), (j + 1) as nat),
                ));
            }
            return Ok(SchemaValue::Array(vector));
        }
        if is_comma {
            // commas between members are optional; skip
            *index = *index + 1;
            proof {
                lemma_prepend_shift(pre, v_model, ts, (j + 1) as nat);
            }
        } else {
            // the next member follows directly
            proof {
                lemma_prepend_shift(pre, v_model, ts, j);
            }
        }
    }
    proof {
        assert(spec_parse_array_items(ts, *index as nat) is None);
        assert(spec_parse_array(ts, entry) is None);
    }
    Err(ParseError { message: "Reached EOF while parsing array.", index: *index })
}

/// Prefixed members compose: pushing a freshly parsed member onto the
/// prefix and continuing after its comma keeps the members equation.
proof fn lemma_prepend_shift(pre: Seq<Val>, v: Val, ts: Seq<Tok>, k: nat)
    ensures
        opt_prepend(pre, opt_prepend(seq![v], spec_parse_array_items(ts, k))) == opt_prepend(
            pre.push(v),
            spec_parse_array_items(ts, k),
        ),
{
    match spec_parse_array_items(ts, k) {
        Some((rest, m)) => {
            assert(pre + (seq![v] + rest) =~= pre.push(v) + rest);
        },
        None => {},
    }
}

/// Joins already-parsed members with the outcome of parsing the rest.
pub open spec fn opt_prepend(pre: Seq<Val>, o: Option<(Seq<Val>, nat)>) -> Option<(Seq<Val>, nat)> {
    match o {
        Some((rest, k)) => Some((pre + rest, k)),
        None => None,
    }
}

/// Reads the fields of an object whose opening brace was just consumed:
/// `field_name: value` members with optional commas, up to `}`.
#[verifier::loop_isolation(false)]
fn parse_object(tokens: &Vec<Token>, index: &mut usize) -> (r: ParseResult<SchemaValue>)
    requires
        *old(index) <= tokens@.len(),
    ensures
        match r {
            Ok(v) => spec_parse_object(toks_model(tokens@), *old(index) as nat) == Some(
                (v@, *final(index) as nat),
            ) && *old(index) < *final(index) <= tokens@.len() && sv_wf(v),
            Err(_) => spec_parse_object(toks_model(tokens@), *old(index) as nat) is None,
        },
    decreases tokens@.len() - *index, 1int,
{
    let ghost ts = toks_model(tokens@);
    let ghost entry = *index as nat;
    let mut fields: Vec<(String, SchemaValue)> = Vec::new();
    while *index < tokens.len()
        invariant
            entry <= *index <= tokens@.len(),
            ts == toks_model(tokens@),
            fields_unique(fields@),
            spec_parse_object_items(ts, entry, Map::empty()) == spec_parse_object_items(
                ts,
                *index as nat,
                fields_model(fields@),
            ),
            forall|m: int| 0 <= m < fields@.len() ==> sv_wf(#[trigger] fields@[m].1),
        decreases tokens@.len() - *index,
    {
        let ghost cur = *index as nat;
        let ghost acc = fields_model(fields@);
        proof {
            assert(ts[*index as int] == tokens@[*index as int]@);
        }
        let member_index = *index;
        let token = &tokens[*index];
        *index = *index + 1;
        match token {
            Token::Identifier(ident) => {
                // Parsing one field of this object: identifier, colon, value.
                if *index >= tokens.len() {
                    proof {
                        assert(spec_parse_object_items(ts, cur, acc) is None);
                        assert(spec_parse_object(ts, entry) is None);
                    }
                    return Err(
                        ParseError {
                            message: "Reached EOF while parsing object, expected another token.",
                            index: *index,
                        },
                    );
                }
                proof {
                    assert(ts[*index as int] == tokens@[*index as int]@);
                }
                let is_colon = match &tokens[*index] {
                    Token::Punctuation(symbol) => *symbol == Symbol::Colon,
                    _ => false,
                };
                if !is_colon {
                    proof {
                        assert(spec_parse_object_items(ts, cur, acc) is None);
                        assert(spec_parse_object(ts, entry) is None);
                    }
                    return Err(ParseError { message: "Invalid token encountered.", index: *index });
                }
                *index = *index + 1;
                let field_value = match parse_value(tokens, index) {
                    Ok(v) => v,
                    Err(e) => {
                        proof {
                            assert(spec_parse_value(ts, (cur + 2) as nat) is None);
                            assert(spec_parse_object_items(ts, cur, acc) is None);
                            assert(spec_parse_object(ts, entry) is None);
                        }
                        return Err(e);
                    },
                };
                let ghost v_model = field_value@;
                object_insert(&mut fields, ident.clone(), field_value);
                proof {
                    assert(fields_model(fields@) == acc.insert(ident@, v_model));
                    assert(spec_parse_object_items(ts, cur, acc) == spec_parse_object_items(
                        ts,
                        *index as nat,
                        acc.insert(ident@, v_model),
                    ));
                }
            },
            Token::Punctuation(symbol) => {
                if *symbol == Symbol::Comma {
                    // Commas between members are optional; skip.
                } else if *symbol == Symbol::CloseCurlyBrace {
                    proof {
                        assert(spec_parse_object_items(ts, cur, acc) == Some(
                            (acc, (cur + 1) as nat),
                        ));
                        assert(spec_parse_object(ts, entry) == Some(
                            (Val::Object(acc), (cur + 1) as nat),
                        ));
                    }
                    return Ok(SchemaValue::Object(fields));
                } else {
                    proof {
                        assert(spec_parse_object_items(ts, cur, acc) is None);
                        assert(spec_parse_object(ts, entry) is None);
                    }
                    return Err(
                        ParseError {
                            message: "Invalid token found while parsing object.",
                            index: member_index,
                        },
                    );
                }
            },
            _ => {
                proof {
                    assert(spec_parse_object_items(ts, cur, acc) is None);
                    assert(spec_parse_object(ts, entry) is None);
                }
                return Err(
                    ParseError {
                        message: "Invalid token found while parsing object.",
                        index: member_index,
                    },
                );
            },
        }
    }
    proof {
        assert(spec_parse_object_items(ts, *index as nat, fields_model(fields@)) is None);
        assert(spec_parse_object(ts, entry) is None);
    }
    Err(ParseError { message: "Reached EOF while parsing object.", index: *index })
}

/// Reads the optional brace-wrapped payload of an enum variant whose tag
/// was just consumed.
fn parse_enum(ident: String, tokens: &Vec<Token>, index: &mut usize) -> (r: ParseResult<
    SchemaValue,
>)
    requires
        *old(index) <= tokens@.len(),
    ensures
        match r {
            Ok(v) => spec_parse_enum(ident@, toks_model(tokens@), *old(index) as nat) == Some(
                (v@, *final(index) as nat),
            ) && *old(index) <= *final(index) <= tokens@.len() && sv_wf(v),
            Err(_) => spec_parse_enum(ident@, toks_model(tokens@), *old(index) as nat) is None,
        },
    decreases tokens@.len() - *index, 1int,
{
    let ghost ts = toks_model(tokens@);
    let ghost entry = *index as nat;
    let mut has_payload = false;
    if *index < tokens.len() {
        proof {
            assert(ts[*index as int] == tokens@[*index as int]@);
        }
        match &tokens[*index] {
            Token::Punctuation(symbol) => {
                if *symbol == Symbol::OpenCurlyBrace {
                    has_payload = true;
                }
            },
            _ => {},
        }
    }
    if has_payload {
        *index = *index + 1;
        let field_value = match parse_value(tokens, index) {
            Ok(v) => v,
            Err(e) => {
                proof {
                    assert(spec_parse_enum(ident@, ts, entry) is None);
                }
                return Err(e);
            },
        };
        if *index >= tokens.len() {
            proof {
                assert(spec_parse_enum(ident@, ts, entry) is None);
            }
            return Err(
                ParseError {
                    message: "Reached EOF while parsing object, expected another token.",
                    index: *index,
                },
            );
        }
        proof {
            assert(ts[*index as int] == tokens@[*index as int]@);
        }
        let is_close = match &tokens[*index] {
            Token::Punctuation(symbol) => *symbol == Symbol::CloseCurlyBrace,
            _ => false,
        };
        if !is_close {
            proof {
                assert(spec_parse_enum(ident@, ts, entry) is None);
            }
            return Err(ParseError { message: "Invalid token encountered.", index: *index });
        }
        *index = *index + 1;
        let result = SchemaValue::EnumVariant(ident, Box::new(field_value));
        proof {
            assert(spec_parse_enum(result->EnumVariant_0@, ts, entry) == Some(
                (result@, *index as nat),
            ));
            assert(sv_wf(result));
        }
        Ok(result)
    } else {
        let payload_box = Box::new(SchemaValue::Null);
        proof {
            assert(*payload_box == SchemaValue::Null);
        }
        let result = SchemaValue::EnumVariant(ident, payload_box);
        proof {
            assert(sv_wf(SchemaValue::Null));
            assert(val_model(SchemaValue::Null) == Val::Null);
            assert(result@ == Val::EnumVariant(result->EnumVariant_0@, Box::new(Val::Null)));
            assert(spec_parse_enum(result->EnumVariant_0@, ts, entry) == Some(
                (result@, *index as nat),
            ));
            assert(sv_wf(result));
        }
        Ok(result)
    }
}

/// Parses a whole token sequence into the definition object it denotes.
///
/// Succeeds exactly when the tokens parse as a document, and then yields
/// exactly the specified value; its field names are unique at every level.
pub fn tokens_to_schema_value(tokens: &Vec<Token>) -> (r: ParseResult<SchemaValue>)
    ensures
        match r {
            Ok(v) => spec_parse_document(toks_model(tokens@)) == Some(v@) && sv_wf(v),
            Err(_) => spec_parse_document(toks_model(tokens@)) is None,
        },
{
    let ghost ts = toks_model(tokens@);
    if tokens.len() == 0 {
        return Err(ParseError { message: "Cannot parse empty token stream.", index: 0 });
    }
    proof {
        assert(ts[0] == tokens@[0]@);
    }
    let is_open = match &tokens[0] {
        Token::Punctuation(symbol) => *symbol == Symbol::OpenCurlyBrace,
        _ => false,
    };
    if is_open {
        let mut idx: usize = 1;
        match parse_object(tokens, &mut idx) {
            Ok(v) => Ok(v),
            Err(e) => Err(e),
        }
    } else {
        Err(
            ParseError {
                message: "Token stream does not represent valid object, should start with '{'.",
                index: 0,
            },
        )
    }
}

} // verus!
