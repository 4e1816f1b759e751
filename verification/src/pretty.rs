//! The text of an entity laid out over several lines: each field of an
//! object and each item of an array on a line of its own, two spaces
//! further in than what holds it.

use crate::entity::{
    fields_model, items_model, lemma_array_view, lemma_object_view, push_entity_text, Entity,
    EntityModel,
};
use crate::text::{push_str, string_of};
use crate::value::{value_text, ValueModel};
use vstd::prelude::*;

verus! {

/// A run of `n` spaces.
pub open spec fn spaces(n: nat) -> Seq<char> {
    Seq::new(n, |i: int| ' ')
}

/// The indentation one level further in: two more spaces, as long as the
/// number fits the machine.
pub open spec fn deeper(indent: nat) -> nat {
    if indent + 2 <= usize::MAX {
        indent + 2
    } else {
        indent
    }
}

/// The text of a scalar in a layout: a string between double quotes as it
/// is, any other value as it is shown.
pub open spec fn plain_text(v: ValueModel) -> Seq<char> {
    match v {
        ValueModel::String(s) => seq!['"'] + s + seq!['"'],
        _ => value_text(v),
    }
}

/// The text of an entity laid out at an indentation. An object or an array
/// with nothing in it is `{}` or `[]`. Any other opens its bracket, has each
/// member on a line of its own, one level further in and with a `,` behind
/// all but the last, and closes its bracket on a line of its own at the
/// indentation.
pub open spec fn pretty_text(m: EntityModel, indent: nat) -> Seq<char>
    decreases m, 0nat,
{
    match m {
        EntityModel::Scalar(v) => plain_text(v),
        EntityModel::Object(fields) => if fields.len() == 0 {
            seq!['{', '}']
        } else {
            seq!['{', '\n'] + pretty_fields(fields, fields.len(), indent) + seq!['\n'] + spaces(
                indent,
            ) + seq!['}']
        },
        EntityModel::Array(items) => if items.len() == 0 {
            seq!['[', ']']
        } else {
            seq!['[', '\n'] + pretty_items(items, items.len(), indent) + seq!['\n'] + spaces(indent)
                + seq![']']
        },
    }
}

/// The lines of the first `n` fields of an object that stands at an
/// indentation: each as its name between double quotes, `: ` and the text
/// of what it holds.
pub open spec fn pretty_fields(fields: Seq<(Seq<char>, EntityModel)>, n: nat, indent: nat) -> Seq<
    char,
>
    decreases fields, n,
{
    if n == 0 || n > fields.len() {
        Seq::empty()
    } else {
        let separator = if n == 1 {
            Seq::<char>::empty()
        } else {
            seq![',', '\n']
        };
        pretty_fields(fields, (n - 1) as nat, indent) + separator + spaces(deeper(indent))
            + seq!['"'] + fields[n - 1].0 + seq!['"', ':', ' '] + pretty_text(
            fields[n - 1].1,
            deeper(indent),
        )
    }
}

/// The lines of the first `n` items of an array that stands at an
/// indentation.
pub open spec fn pretty_items(items: Seq<EntityModel>, n: nat, indent: nat) -> Seq<char>
    decreases items, n,
{
    if n == 0 || n > items.len() {
        Seq::empty()
    } else {
        let separator = if n == 1 {
            Seq::<char>::empty()
        } else {
            seq![',', '\n']
        };
        pretty_items(items, (n - 1) as nat, indent) + separator + spaces(deeper(indent))
            + pretty_text(items[n - 1], deeper(indent))
    }
}

/// Appends `n` spaces to `out`.
fn push_spaces(out: &mut Vec<char>, n: usize)
    ensures
        final(out)@ == old(out)@ + spaces(n as nat),
{
    let mut i: usize = 0;
    assert(out@ =~= old(out)@ + spaces(0));
    while i < n
        invariant
            i <= n,
            out@ == old(out)@ + spaces(i as nat),
        decreases n - i,
    {
        out.push(' ');
        assert(out@ =~= old(out)@ + spaces((i + 1) as nat));
        i += 1;
    }
}

/// Appends the text of an entity, laid out at an indentation, to `out`.
pub fn push_pretty_text(entity: &Entity, indent: usize, out: &mut Vec<char>)
    ensures
        final(out)@ == old(out)@ + pretty_text(entity@, indent as nat),
    decreases entity@,
{
    let inner: usize = if indent <= usize::MAX - 2 {
        indent + 2
    } else {
        indent
    };
    assert(inner as nat == deeper(indent as nat));
    match entity {
        Entity::Object(fields) => {
            proof {
                lemma_object_view(*fields);
            }
            let ghost models = fields_model(fields@);
            if fields.len() == 0 {
                out.push('{');
                out.push('}');
                assert(out@ =~= old(out)@ + seq!['{', '}']);
                return ;
            }
            out.push('{');
            out.push('\n');
            assert(out@ =~= old(out)@ + seq!['{', '\n']);
            let mut i: usize = 0;
            while i < fields.len()
                invariant
                    i <= fields.len(),
                    entity@ == EntityModel::Object(models),
                    models == fields_model(fields@),
                    inner as nat == deeper(indent as nat),
                    out@ == old(out)@ + seq!['{', '\n'] + pretty_fields(
                        models,
                        i as nat,
                        indent as nat,
                    ),
                decreases fields.len() - i,
            {
                let ghost before = out@;
                if i > 0 {
                    out.push(',');
                    out.push('\n');
                }
                let ghost separated = out@;
                push_spaces(out, inner);
                out.push('"');
                push_str(out, fields[i].0.as_str());
                out.push('"');
                out.push(':');
                out.push(' ');
                let ghost named = out@;
                proof {
                    assert(models[i as int] == (fields@[i as int].0@, fields@[i as int].1@));
                    assert(decreases_to!(entity@ => entity@->Object_0));
                    assert(decreases_to!(entity@->Object_0 => entity@->Object_0[i as int]));
                    assert(decreases_to!(entity@->Object_0[i as int] => entity@->Object_0[i as int].1));
                    assert(decreases_to!(entity@ => fields@[i as int].1@));
                }
                push_pretty_text(&fields[i].1, inner, out);
                proof {
                    let separator = if i == 0 {
                        Seq::<char>::empty()
                    } else {
                        seq![',', '\n']
                    };
                    assert(separated =~= before + separator);
                    assert(named =~= separated + spaces(inner as nat) + seq!['"'] + models[i as int].0
                        + seq!['"', ':', ' ']);
                    assert(out@ =~= old(out)@ + seq!['{', '\n'] + (pretty_fields(
                        models,
                        i as nat,
                        indent as nat,
                    ) + separator + spaces(inner as nat) + seq!['"'] + models[i as int].0 + seq![
                        '"',
                        ':',
                        ' ',
                    ] + pretty_text(models[i as int].1, inner as nat)));
                }
                i += 1;
            }
            out.push('\n');
            push_spaces(out, indent);
            out.push('}');
            assert(out@ =~= old(out)@ + (seq!['{', '\n'] + pretty_fields(
                models,
                models.len(),
                indent as nat,
            ) + seq!['\n'] + spaces(indent as nat) + seq!['}']));
        },
        Entity::Array(items) => {
            proof {
                lemma_array_view(*items);
            }
            let ghost models = items_model(items@);
            if items.len() == 0 {
                out.push('[');
                out.push(']');
                assert(out@ =~= old(out)@ + seq!['[', ']']);
                return ;
            }
            out.push('[');
            out.push('\n');
            assert(out@ =~= old(out)@ + seq!['[', '\n']);
            let mut i: usize = 0;
            while i < items.len()
                invariant
                    i <= items.len(),
                    entity@ == EntityModel::Array(models),
                    models == items_model(items@),
                    inner as nat == deeper(indent as nat),
                    out@ == old(out)@ + seq!['[', '\n'] + pretty_items(
                        models,
                        i as nat,
                        indent as nat,
                    ),
                decreases items.len() - i,
            {
                let ghost before = out@;
                if i > 0 {
                    out.push(',');
                    out.push('\n');
                }
                let ghost separated = out@;
                push_spaces(out, inner);
                proof {
                    assert(models[i as int] == items@[i as int]@);
                    assert(decreases_to!(entity@ => entity@->Array_0));
                    assert(decreases_to!(entity@->Array_0 => entity@->Array_0[i as int]));
                    assert(decreases_to!(entity@ => items@[i as int]@));
                }
                push_pretty_text(&items[i], inner, out);
                proof {
                    let separator = if i == 0 {
                        Seq::<char>::empty()
                    } else {
                        seq![',', '\n']
                    };
                    assert(separated =~= before + separator);
                    assert(out@ =~= old(out)@ + seq!['[', '\n'] + (pretty_items(
                        models,
                        i as nat,
                        indent as nat,
                    ) + separator + spaces(inner as nat) + pretty_text(
                        models[i as int],
                        inner as nat,
                    )));
                }
                i += 1;
            }
            out.push('\n');
            push_spaces(out, indent);
            out.push(']');
            assert(out@ =~= old(out)@ + (seq!['[', '\n'] + pretty_items(
                models,
                models.len(),
                indent as nat,
            ) + seq!['\n'] + spaces(indent as nat) + seq![']']));
        },
        Entity::String(s) => {
            out.push('"');
            push_str(out, s.as_str());
            out.push('"');
            assert(out@ =~= old(out)@ + (seq!['"'] + s@ + seq!['"']));
        },
        other => {
            push_entity_text(other, out);
        },
    }
}

impl Entity {
    /// The text of the entity laid out over several lines, at an
    /// indentation.
    pub fn to_string_pretty(&self, indent: usize) -> (r: String)
        ensures
            r@ == pretty_text(self@, indent as nat),
    {
        let mut out: Vec<char> = Vec::new();
        push_pretty_text(self, indent, &mut out);
        assert(Seq::<char>::empty() + pretty_text(self@, indent as nat) == pretty_text(
            self@,
            indent as nat,
        ));
        string_of(&out)
    }
}

} // verus!
