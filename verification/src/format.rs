//! Formatting a parsed value back into definition text: objects as brace
//! blocks with two-space indentation and one `name: value` field per line,
//! arrays as bracket blocks with one element per line, strings quoted,
//! enum payloads brace-wrapped.

use vstd::prelude::*;

use crate::schema::{spec_tabs, SerializeContext};
use crate::value::SchemaValue;

verus! {

/// One level deeper of indentation; saturates at the platform limit
/// instead of overflowing (unreachable for any definition that fits in
/// memory).
pub open spec fn spec_tab_inc(tabs: nat) -> nat {
    if tabs < usize::MAX {
        tabs + 1
    } else {
        tabs
    }
}

/// The text a parsed value renders as, at the given indentation depth.
pub open spec fn spec_format(sv: SchemaValue, tabs: nat) -> Seq<char>
    decreases sv, 1int,
{
    match sv {
        SchemaValue::Object(fields) => seq!['{', '\n'] + spec_format_fields(
            fields@,
            spec_tab_inc(tabs),
        ) + spec_tabs(tabs) + seq!['}'],
        SchemaValue::Integer(n) => crate::digits::spec_int_digits(n as int),
        SchemaValue::Decimal(text) => text@,
        SchemaValue::Bool(b) => if b {
            "true"@
        } else {
            "false"@
        },
        SchemaValue::Array(items) => if items@.len() == 0 {
            "[]"@
        } else {
            seq!['[', '\n'] + spec_tabs(spec_tab_inc(tabs)) + spec_format_items(
                items@,
                spec_tab_inc(tabs),
            ) + seq!['\n'] + spec_tabs(tabs) + seq![']']
        },
        SchemaValue::Strg(text) => seq!['"'] + text@ + seq!['"'],
        SchemaValue::EnumVariant(name, payload) => match *payload {
            SchemaValue::Null => name@,
            _ => name@ + seq![' ', '{', '\n'] + spec_tabs(spec_tab_inc(tabs)) + spec_format(
                *payload,
                spec_tab_inc(tabs),
            ) + seq!['\n'] + spec_tabs(tabs) + seq!['}'],
        },
        SchemaValue::Null => Seq::empty(),
    }
}

/// The text of an object's fields: each on its own indented line.
pub open spec fn spec_format_fields(
    fields: Seq<(String, SchemaValue)>,
    tabs: nat,
) -> Seq<char>
    decreases fields, 0int,
{
    if fields.len() == 0 {
        Seq::empty()
    } else {
        spec_tabs(tabs) + fields[0].0@ + seq![':', ' '] + spec_format(fields[0].1, tabs)
            + seq!['\n'] + spec_format_fields(fields.drop_first(), tabs)
    }
}

/// The text of an array's members: comma-and-newline separated, each new
/// line indented.
pub open spec fn spec_format_items(items: Seq<SchemaValue>, tabs: nat) -> Seq<char>
    decreases items, 0int,
{
    if items.len() == 0 {
        Seq::empty()
    } else if items.len() == 1 {
        spec_format(items[0], tabs)
    } else {
        spec_format(items[0], tabs) + seq![',', '\n'] + spec_tabs(tabs) + spec_format_items(
            items.drop_first(),
            tabs,
        )
    }
}

/// Renders one parsed value at the serialization's current indentation,
/// appending to its output.
#[verifier::rlimit(100)]
pub fn format_schema_value(sv: &SchemaValue, context: &mut SerializeContext)
    ensures
        final(context).string@ == old(context).string@ + spec_format(*sv, old(context).tabs as nat),
        final(context).tabs == old(context).tabs,
    decreases *sv, 0int, 0int,
{
    match sv {
        SchemaValue::Object(fields) => {
            let saved_tabs = context.tabs;
            context.print("{");
            context.println();
            if context.tabs < usize::MAX {
                context.tabs = context.tabs + 1;
            }
            format_fields(fields, 0, context);
            context.tabs = saved_tabs;
            context.print_tabs();
            context.print("}");
            proof {
                reveal_strlit("{");
                reveal_strlit("}");
                assert("{"@ =~= seq!['{']);
                assert("}"@ =~= seq!['}']);
                assert(fields@.skip(0) =~= fields@);
                assert(final(context).string@ =~= old(context).string@ + spec_format(
                    *sv,
                    old(context).tabs as nat,
                ));
            }
        },
        SchemaValue::Integer(n) => {
            let text = crate::digits::i64_to_string(*n);
            context.print(text.as_str());
        },
        SchemaValue::Decimal(text) => {
            context.print(text.as_str());
        },
        SchemaValue::Bool(b) => {
            if *b {
                context.print("true");
            } else {
                context.print("false");
            }
        },
        SchemaValue::Array(items) => {
            if items.len() == 0 {
                context.print("[]");
            } else {
                let saved_tabs = context.tabs;
                context.print("[");
                context.println();
                if context.tabs < usize::MAX {
                    context.tabs = context.tabs + 1;
                }
                context.print_tabs();
                format_items(items, 0, context);
                context.println();
                context.tabs = saved_tabs;
                context.print_tabs();
                context.print("]");
                proof {
                    reveal_strlit("[");
                    reveal_strlit("]");
                    assert("["@ =~= seq!['[']);
                    assert("]"@ =~= seq![']']);
                    assert(items@.skip(0) =~= items@);
                    assert(final(context).string@ =~= old(context).string@ + spec_format(
                        *sv,
                        old(context).tabs as nat,
                    ));
                }
            }
        },
        SchemaValue::Strg(text) => {
            context.print("\"");
            context.print(text.as_str());
            context.print("\"");
            proof {
                reveal_strlit("\"");
                assert("\""@ =~= seq!['"']);
                assert(final(context).string@ =~= old(context).string@ + spec_format(
                    *sv,
                    old(context).tabs as nat,
                ));
            }
        },
        SchemaValue::EnumVariant(name, payload) => {
            context.print(name.as_str());
            let has_payload = match &**payload {
                SchemaValue::Null => false,
                _ => true,
            };
            if has_payload {
                let saved_tabs = context.tabs;
                context.print(" {");
                context.println();
                if context.tabs < usize::MAX {
                    context.tabs = context.tabs + 1;
                }
                context.print_tabs();
                format_schema_value(&**payload, context);
                context.println();
                context.tabs = saved_tabs;
                context.print_tabs();
                context.print("}");
                proof {
                    reveal_strlit(" {");
                    reveal_strlit("}");
                    assert(" {"@ =~= seq![' ', '{']);
                    assert("}"@ =~= seq!['}']);
                    assert(final(context).string@ =~= old(context).string@ + spec_format(
                        *sv,
                        old(context).tabs as nat,
                    ));
                }
            }
        },
        SchemaValue::Null => {
            proof {
                assert(old(context).string@ + Seq::<char>::empty() =~= old(context).string@);
            }
        },
    }
}

/// Renders an object's fields from position `k` on, one per line.
fn format_fields(fields: &Vec<(String, SchemaValue)>, k: usize, context: &mut SerializeContext)
    requires
        k <= fields@.len(),
    ensures
        final(context).string@ == old(context).string@ + spec_format_fields(
            fields@.skip(k as int),
            old(context).tabs as nat,
        ),
        final(context).tabs == old(context).tabs,
    decreases *fields, fields@.len() - k, 1int,
{
    if k < fields.len() {
        context.print_tabs();
        context.print(fields[k].0.as_str());
        context.print(": ");
        format_schema_value(&fields[k].1, context);
        context.println();
        format_fields(fields, k + 1, context);
        proof {
            reveal_strlit(": ");
            assert(": "@ =~= seq![':', ' ']);
            assert(fields@.skip(k as int)[0] == fields@[k as int]);
            assert(fields@.skip(k as int).drop_first() =~= fields@.skip(k + 1));
            assert(final(context).string@ =~= old(context).string@ + spec_format_fields(
                fields@.skip(k as int),
                old(context).tabs as nat,
            ));
        }
    } else {
        proof {
            assert(fields@.skip(k as int) =~= Seq::<(String, SchemaValue)>::empty());
            assert(old(context).string@ + Seq::<char>::empty() =~= old(context).string@);
        }
    }
}

/// Renders an array's members from position `k` on, comma separated.
fn format_items(items: &Vec<SchemaValue>, k: usize, context: &mut SerializeContext)
    requires
        k < items@.len(),
    ensures
        final(context).string@ == old(context).string@ + spec_format_items(
            items@.skip(k as int),
            old(context).tabs as nat,
        ),
        final(context).tabs == old(context).tabs,
    decreases *items, items@.len() - k, 1int,
{
    format_schema_value(&items[k], context);
    if k < items.len() - 1 {
        context.print(",");
        context.println();
        context.print_tabs();
        format_items(items, k + 1, context);
        proof {
            reveal_strlit(",");
            assert(","@ =~= seq![',']);
            assert(items@.skip(k as int)[0] == items@[k as int]);
            assert(items@.skip(k as int).drop_first() =~= items@.skip(k + 1));
            assert(items@.skip(k as int).len() > 1);
            assert(final(context).string@ =~= old(context).string@ + spec_format_items(
                items@.skip(k as int),
                old(context).tabs as nat,
            ));
        }
    } else {
        proof {
            assert(items@.skip(k as int).len() == 1);
            assert(items@.skip(k as int)[0] == items@[k as int]);
        }
    }
}

} // verus!
