//! Layered command-attribute resolution.
//!
//! A command type declares its pattern in an `scpi` attribute of the
//! form `#[scpi(command = "...")]`; the host-language front end hands
//! the declaration over as plain data.  Attributes whose path is not
//! `scpi` are ignored.  An `scpi` attribute must be a list of
//! `name = value` items whose only recognized name is `command` and
//! whose value must be a string; anything else is a configuration
//! error that stops compilation.
//!
//! A variant group resolves its commands in layers: the group-level
//! attributes form a base record, and each variant's own attributes are
//! applied over a copy of it, later `command` options overwriting
//! earlier ones.  A variant left with no command at all is an error.

use crate::schema::clone_bytes;
use vstd::prelude::*;

verus! {

/// A literal value carried by an attribute item.
pub enum Lit {
    /// A string literal, as bytes.
    Str(Vec<u8>),
    /// Any other literal kind: never a valid command.
    Other,
}

/// One item inside an attribute's parenthesized list.
pub enum AttrItem {
    /// A `name = value` option.
    NameValue { name: Vec<u8>, value: Lit },
    /// A nested item of some other meta form.
    OtherMeta,
    /// A bare literal in place of an item.
    LiteralItem,
}

/// The interpreted form of one attribute.
pub enum AttrForm {
    /// A parenthesized list of items: the only form `scpi` accepts.
    List(Vec<AttrItem>),
    /// A word or `name = value` form.
    OtherForm,
    /// An attribute whose meta could not be interpreted at all.
    Uninterpretable,
}

/// One attribute of a declaration, reduced to the parts this resolver
/// reads: its single-segment path and its interpreted form.
pub struct Attribute {
    pub path: Vec<u8>,
    pub form: AttrForm,
}

/// A configuration error in a command declaration.
#[derive(Clone, Copy, PartialEq, Eq, Structural, Debug)]
pub enum AttributeError {
    /// An `scpi` attribute that is not a parenthesized list.
    InvalidAttribute,
    /// A list item that is not a `name = value` option.
    InvalidItem,
    /// A `name = value` option whose name is not `command`.
    UnknownOption,
    /// A `command` whose value is not a string literal.
    InvalidValue,
    /// The variant at this index resolved to no command at all.
    MissingCommand(usize),
}

/// The byte spelling of the attribute path this resolver owns.
pub open spec fn scpi_path() -> Seq<u8> {
    seq![115u8, 99u8, 112u8, 105u8]
}

/// The byte spelling of the one recognized option name.
pub open spec fn command_name() -> Seq<u8> {
    seq![99u8, 111u8, 109u8, 109u8, 97u8, 110u8, 100u8]
}

/// What one list item does to the current command, or the error it
/// raises.
pub open spec fn spec_apply_item(cur: Option<Seq<u8>>, item: AttrItem) -> Result<
    Option<Seq<u8>>,
    AttributeError,
> {
    match item {
        AttrItem::NameValue { name, value } => if name@ == command_name() {
            match value {
                Lit::Str(s) => Ok(Some(s@)),
                Lit::Other => Err(AttributeError::InvalidValue),
            }
        } else {
            Err(AttributeError::UnknownOption)
        },
        AttrItem::OtherMeta => Err(AttributeError::InvalidItem),
        AttrItem::LiteralItem => Err(AttributeError::InvalidItem),
    }
}

pub open spec fn spec_apply_items(cur: Option<Seq<u8>>, items: Seq<AttrItem>) -> Result<
    Option<Seq<u8>>,
    AttributeError,
>
    decreases items.len(),
{
    if items.len() == 0 {
        Ok(cur)
    } else {
        match spec_apply_item(cur, items[0]) {
            Ok(c2) => spec_apply_items(c2, items.skip(1)),
            Err(e) => Err(e),
        }
    }
}

/// What one attribute does to the current command: nothing unless its
/// path is `scpi`, its items in order when it is a list, an error
/// otherwise.
pub open spec fn spec_apply_attr(cur: Option<Seq<u8>>, a: Attribute) -> Result<
    Option<Seq<u8>>,
    AttributeError,
> {
    if a.path@ != scpi_path() {
        Ok(cur)
    } else {
        match a.form {
            AttrForm::List(items) => spec_apply_items(cur, items@),
            AttrForm::OtherForm => Err(AttributeError::InvalidAttribute),
            AttrForm::Uninterpretable => Err(AttributeError::InvalidAttribute),
        }
    }
}

/// The cascade: each attribute applied in order over the record so far.
pub open spec fn spec_apply(cur: Option<Seq<u8>>, attrs: Seq<Attribute>) -> Result<
    Option<Seq<u8>>,
    AttributeError,
>
    decreases attrs.len(),
{
    if attrs.len() == 0 {
        Ok(cur)
    } else {
        match spec_apply_attr(cur, attrs[0]) {
            Ok(c2) => spec_apply(c2, attrs.skip(1)),
            Err(e) => Err(e),
        }
    }
}

/// The command view of an attribute record.
pub open spec fn command_view(c: Option<Vec<u8>>) -> Option<Seq<u8>> {
    match c {
        Some(v) => Some(v@),
        None => None,
    }
}

/// The configuration record the attribute cascade resolves: for now, the
/// command pattern text, if one was declared.
#[derive(PartialEq, Eq, Debug)]
pub struct ScpiAttributes {
    pub command: Option<Vec<u8>>,
}

impl ScpiAttributes {
    /// The empty base record: no command declared yet.
    pub fn new() -> (r: ScpiAttributes)
        ensures
            command_view(r.command) is None,
    {
        ScpiAttributes { command: None }
    }

    /// A copy of the record, for layering a variant over its group.
    pub fn duplicate(&self) -> (r: ScpiAttributes)
        ensures
            command_view(r.command) == command_view(self.command),
    {
        match &self.command {
            Some(c) => ScpiAttributes { command: Some(clone_bytes(c)) },
            None => ScpiAttributes { command: None },
        }
    }

    /// Applies a declaration's attributes over this record, in order,
    /// each `scpi` list's `command` option overwriting the command so
    /// far.  Returns the layered record, or the first configuration
    /// error.
    pub fn apply(self, attributes: &Vec<Attribute>) -> (r: Result<ScpiAttributes, AttributeError>)
        ensures
            match r {
                Ok(out) => spec_apply(command_view(self.command), attributes@) == Ok::<
                    Option<Seq<u8>>,
                    AttributeError,
                >(command_view(out.command)),
                Err(e) => spec_apply(command_view(self.command), attributes@) == Err::<
                    Option<Seq<u8>>,
                    AttributeError,
                >(e),
            },
    {
        let ghost cur0 = command_view(self.command);
        let mut cur: Option<Vec<u8>> = self.command;
        let mut i: usize = 0;
        proof {
            assert(attributes@.skip(0) =~= attributes@);
        }
        while i < attributes.len()
            invariant
                i <= attributes@.len(),
                cur0 == command_view(self.command),
                spec_apply(cur0, attributes@) == spec_apply(
                    command_view(cur),
                    attributes@.skip(i as int),
                ),
            decreases attributes@.len() - i,
        {
            let ghost rest = attributes@.skip(i as int);
            proof {
                assert(rest[0] == attributes@[i as int]);
                assert(rest.skip(1) =~= attributes@.skip(i + 1 as int));
            }
            let ghost cb = command_view(cur);
            proof {
                assert(spec_apply(cb, rest) == (match spec_apply_attr(cb, rest[0]) {
                    Ok(c2) => spec_apply(c2, rest.skip(1)),
                    Err(e) => Err(e),
                }));
            }
            let a = &attributes[i];
            if is_scpi_path(&a.path) {
                match &a.form {
                    AttrForm::List(items) => {
                        proof {
                            assert(spec_apply_attr(cb, rest[0]) == spec_apply_items(cb, items@));
                        }
                        cur = match apply_items(cur, items) {
                            Ok(c2) => c2,
                            Err(e) => {
                                assert(spec_apply(cur0, attributes@) == Err::<
                                    Option<Seq<u8>>,
                                    AttributeError,
                                >(e));
                                return Err(e);
                            },
                        };
                    },
                    AttrForm::OtherForm => {
                        proof {
                            assert(spec_apply_attr(cb, rest[0]) == Err::<
                                Option<Seq<u8>>,
                                AttributeError,
                            >(AttributeError::InvalidAttribute));
                        }
                        return Err(AttributeError::InvalidAttribute);
                    },
                    AttrForm::Uninterpretable => {
                        proof {
                            assert(spec_apply_attr(cb, rest[0]) == Err::<
                                Option<Seq<u8>>,
                                AttributeError,
                            >(AttributeError::InvalidAttribute));
                        }
                        return Err(AttributeError::InvalidAttribute);
                    },
                }
            } else {
                proof {
                    assert(spec_apply_attr(cb, rest[0]) == Ok::<Option<Seq<u8>>, AttributeError>(
                        cb,
                    ));
                }
            }
            i = i + 1;
        }
        proof {
            assert(attributes@.skip(attributes@.len() as int) =~= Seq::<Attribute>::empty());
        }
        Ok(ScpiAttributes { command: cur })
    }
}

/// Applies the items of one `scpi` list over the current command.
fn apply_items(cur: Option<Vec<u8>>, items: &Vec<AttrItem>) -> (r: Result<
    Option<Vec<u8>>,
    AttributeError,
>)
    ensures
        match r {
            Ok(c2) => spec_apply_items(command_view(cur), items@) == Ok::<
                Option<Seq<u8>>,
                AttributeError,
            >(command_view(c2)),
            Err(e) => spec_apply_items(command_view(cur), items@) == Err::<
                Option<Seq<u8>>,
                AttributeError,
            >(e),
        },
{
    let ghost cur0 = command_view(cur);
    let mut cur = cur;
    let mut j: usize = 0;
    proof {
        assert(items@.skip(0) =~= items@);
    }
    while j < items.len()
        invariant
            j <= items@.len(),
            spec_apply_items(cur0, items@) == spec_apply_items(
                command_view(cur),
                items@.skip(j as int),
            ),
        decreases items@.len() - j,
    {
        let ghost irest = items@.skip(j as int);
        proof {
            assert(irest[0] == items@[j as int]);
            assert(irest.skip(1) =~= items@.skip(j + 1 as int));
        }
        match &items[j] {
            AttrItem::NameValue { name, value } => {
                if is_command_name(name) {
                    match value {
                        Lit::Str(s) => {
                            proof {
                                assert(spec_apply_item(command_view(cur), irest[0]) == Ok::<
                                    Option<Seq<u8>>,
                                    AttributeError,
                                >(Some(s@)));
                            }
                            cur = Some(clone_bytes(s));
                        },
                        Lit::Other => {
                            proof {
                                assert(spec_apply_item(command_view(cur), irest[0]) == Err::<
                                    Option<Seq<u8>>,
                                    AttributeError,
                                >(AttributeError::InvalidValue));
                            }
                            return Err(AttributeError::InvalidValue);
                        },
                    }
                } else {
                    proof {
                        assert(spec_apply_item(command_view(cur), irest[0]) == Err::<
                            Option<Seq<u8>>,
                            AttributeError,
                        >(AttributeError::UnknownOption));
                    }
                    return Err(AttributeError::UnknownOption);
                }
            },
            AttrItem::OtherMeta => {
                return Err(AttributeError::InvalidItem);
            },
            AttrItem::LiteralItem => {
                return Err(AttributeError::InvalidItem);
            },
        }
        j = j + 1;
    }
    proof {
        assert(items@.skip(items@.len() as int) =~= Seq::<AttrItem>::empty());
    }
    Ok(cur)
}

/// Whether a byte string spells `scpi`.
fn is_scpi_path(v: &Vec<u8>) -> (r: bool)
    ensures
        r == (v@ == scpi_path()),
{
    if v.len() != 4 {
        assert(v@ != scpi_path());
        return false;
    }
    let r = v[0] == 115 && v[1] == 99 && v[2] == 112 && v[3] == 105;
    proof {
        if r {
            assert(v@ =~= scpi_path());
        } else {
            assert(v@ != scpi_path());
        }
    }
    r
}

/// Whether a byte string spells `command`.
fn is_command_name(v: &Vec<u8>) -> (r: bool)
    ensures
        r == (v@ == command_name()),
{
    if v.len() != 7 {
        assert(v@ != command_name());
        return false;
    }
    let r = v[0] == 99 && v[1] == 111 && v[2] == 109 && v[3] == 109 && v[4] == 97 && v[5] == 110
        && v[6] == 100;
    proof {
        if r {
            assert(v@ =~= command_name());
        } else {
            assert(v@ != command_name());
        }
    }
    r
}

/// Where and why a variant group's resolution failed: every variant
/// before `i` resolved to a command, and the one at `i` raised `e` — a
/// missing command, or its attributes' own error.
pub open spec fn resolve_failure_at(
    base: Option<Seq<u8>>,
    variants: Seq<Vec<Attribute>>,
    e: AttributeError,
    i: int,
) -> bool {
    &&& 0 <= i < variants.len()
    &&& (forall|j: int|
        0 <= j < i ==> (#[trigger] spec_apply(base, variants[j]@)) matches Ok(Some(_)))
    &&& {
        ||| spec_apply(base, variants[i]@) == Err::<Option<Seq<u8>>, AttributeError>(e)
        ||| (e == AttributeError::MissingCommand(i as usize) && spec_apply(base, variants[i]@)
            == Ok::<Option<Seq<u8>>, AttributeError>(None))
    }
}

/// Resolves each variant's command by layering its attributes over the
/// group-level record: the cascading overwrite of the `command` option.
/// Fails on the first variant whose attributes are invalid or that is
/// left with no command.
pub fn resolve_variant_commands(base: &ScpiAttributes, variants: &Vec<Vec<Attribute>>) -> (r:
    Result<Vec<Vec<u8>>, AttributeError>)
    ensures
        match r {
            Ok(cmds) => {
                &&& cmds@.len() == variants@.len()
                &&& forall|i: int|
                    0 <= i < variants@.len() ==> spec_apply(
                        command_view(base.command),
                        (#[trigger] variants@[i])@,
                    ) == Ok::<Option<Seq<u8>>, AttributeError>(Some(cmds@[i]@))
            },
            Err(e) => exists|i: int|
                resolve_failure_at(command_view(base.command), variants@, e, i),
        },
{
    let mut cmds: Vec<Vec<u8>> = Vec::new();
    let mut i: usize = 0;
    while i < variants.len()
        invariant
            i <= variants@.len(),
            cmds@.len() == i,
            forall|j: int|
                0 <= j < i ==> spec_apply(command_view(base.command), (#[trigger] variants@[j])@)
                    == Ok::<Option<Seq<u8>>, AttributeError>(Some(cmds@[j]@)),
        decreases variants@.len() - i,
    {
        let layered = base.duplicate();
        match layered.apply(&variants[i]) {
            Ok(out) => {
                match out.command {
                    Some(c) => {
                        cmds.push(c);
                    },
                    None => {
                        proof {
                            assert(resolve_failure_at(
                                command_view(base.command),
                                variants@,
                                AttributeError::MissingCommand(i),
                                i as int,
                            ));
                        }
                        return Err(AttributeError::MissingCommand(i));
                    },
                }
            },
            Err(e) => {
                proof {
                    assert(resolve_failure_at(command_view(base.command), variants@, e, i as int));
                }
                return Err(e);
            },
        }
        i = i + 1;
    }
    Ok(cmds)
}

} // verus!
