//! Function types and pointers to functions.

use vstd::prelude::*;
use vstd::string::*;

use crate::error::ParseFailure;
use crate::msvc::codes::{decode_calling_convention, Modifier};
use crate::msvc::flags::UNDNAME_NO_ALLOCATION_LANGUAGE;
use crate::msvc::grammar::{Env, Step, TypeView, Typed};
use crate::msvc::grammar;
use crate::msvc::lexer::Datatype;
use crate::msvc::lexer;
use crate::msvc::parser::{
    MemberFunctionModifier, MemberFunctionPointerParts, MsvcParser, StandaloneFunctionParts,
};
use crate::msvc::parser;
use crate::msvc::state::RefArray;
use crate::text::{literal_or_empty, or_empty};
use crate::text;

verus! {

impl<'a> MsvcParser<'a> {
    /// Reads a function type that is not behind a pointer.
    pub fn parse_standalone_function_type(
        &mut self,
        mut parameter_types: Option<&mut RefArray>,
        in_args: bool,
    ) -> (r: Result<Datatype, ParseFailure>)
        ensures
            parser::kept(*old(self), *final(self)),
            parser::anchored(*old(self), *final(self)),
            parser::balanced(*old(self), *final(self)),
            forall|env: Env|
                old(self).fits(env) && #[trigger] final(self).budget.agrees(env.grants) ==> old(
                    self,
                ).budget.agrees(env.grants) && (Typed {
                    out: lexer::type_result(r),
                    st: final(self)@,
                    types: match parameter_types {
                        Some(types) => Some(final(types)@),
                        None => None,
                    },
                }) == grammar::function_type(
                    env,
                    grammar::rules(env, old(self).depth),
                    old(self)@,
                    match parameter_types {
                        Some(types) => Some(types@),
                        None => None,
                    },
                    in_args,
                ),
        decreases grammar::room(old(self).depth), 8nat, 0nat, 0nat,
    {
        proof {
            reveal(grammar::function_type);
        }
        let checkpoint = self.stack.logical_num();
        let parsed = match parameter_types {
            Some(ref mut types) => self.parse_standalone_function_type_body(Some(&mut **types)),
            None => self.parse_standalone_function_type_body(None),
        };
        self.stack.restore_num(checkpoint)?;
        let datatype = self.render_standalone_function_type(parsed?)?;
        self.record_outer_parameter_type(parameter_types, in_args, &datatype)?;
        Ok(datatype)
    }

    /// Reads a calling convention, a return type and an argument list.
    pub fn parse_standalone_function_type_body(
        &mut self,
        mut parameter_types: Option<&mut RefArray>,
    ) -> (r: Result<StandaloneFunctionParts, ParseFailure>)
        ensures
            parser::kept(*old(self), *final(self)),
            parser::anchored(*old(self), *final(self)),
            parser::balanced(*old(self), *final(self)),
            forall|env: Env|
                old(self).fits(env) && #[trigger] final(self).budget.agrees(env.grants) ==> old(
                    self,
                ).budget.agrees(env.grants) && (Typed {
                    out: parser::viewed(r),
                    st: final(self)@,
                    types: match parameter_types {
                        Some(types) => Some(final(types)@),
                        None => None,
                    },
                }) == grammar::signature(
                    env,
                    grammar::rules(env, old(self).depth),
                    old(self)@,
                    match parameter_types {
                        Some(types) => Some(types@),
                        None => None,
                    },
                ),
        decreases grammar::room(old(self).depth), 7nat, 0nat, 0nat,
    {
        proof {
            reveal(grammar::signature);
        }
        let calling_convention_byte = self.cursor.next()?;
        let calling_convention = decode_calling_convention(
            calling_convention_byte,
            self.flags & !UNDNAME_NO_ALLOCATION_LANGUAGE,
        )?;
        let return_type = match parameter_types {
            Some(ref mut types) => self.parse_datatype(Some(&mut **types), false)?,
            None => self.parse_datatype(None, false)?,
        };
        let arguments = self.parse_arguments(parameter_types, true, '(' as u8, ')' as u8)?;
        Ok(
            StandaloneFunctionParts {
                calling_convention: calling_convention.calling_convention,
                exported: calling_convention.exported,
                return_type,
                arguments,
            },
        )
    }

    /// Renders a function type.
    pub fn render_standalone_function_type(
        &mut self,
        parsed: StandaloneFunctionParts,
    ) -> (r: Result<Datatype, ParseFailure>)
        ensures
            parser::kept(*old(self), *final(self)),
            parser::anchored(*old(self), *final(self)),
            parser::balanced(*old(self), *final(self)),
            forall|env: Env|
                old(self).fits(env) && #[trigger] final(self).budget.agrees(env.grants) ==> old(
                    self,
                ).budget.agrees(env.grants) && (Step {
                    out: lexer::type_result(r),
                    st: final(self)@,
                }) == ({
                    let rendered = old(self)@.emit(env, grammar::function_text(parsed@));
                    Step {
                        out: match rendered.out {
                            Ok(left) => Ok(TypeView::plain(left)),
                            Err(error) => Err(error),
                        },
                        st: rendered.st,
                    }
                }),
    {
        proof {
            reveal_with_fuel(text::joined, 8);
        }
        let left = self.emit(
            &[
                parsed.return_type.left.as_str(),
                if parsed.return_type.right.is_none() {
                    " "
                } else {
                    ""
                },
                literal_or_empty(parsed.calling_convention),
                if parsed.calling_convention.is_some() {
                    " "
                } else {
                    ""
                },
                literal_or_empty(parsed.exported),
                parsed.arguments.as_str(),
                or_empty(&parsed.return_type.right),
            ],
        )?;
        Ok(Datatype { left, right: None })
    }

    /// Reads a pointer to a function. The stack is left as it was found.
    pub fn parse_function_pointer_type(
        &mut self,
        mut parameter_types: Option<&mut RefArray>,
        modifier: u8,
        in_args: bool,
    ) -> (r: Result<Datatype, ParseFailure>)
        ensures
            parser::kept(*old(self), *final(self)),
            parser::anchored(*old(self), *final(self)),
            parser::balanced(*old(self), *final(self)),
            forall|env: Env|
                old(self).fits(env) && #[trigger] final(self).budget.agrees(env.grants) ==> old(
                    self,
                ).budget.agrees(env.grants) && (Typed {
                    out: lexer::type_result(r),
                    st: final(self)@,
                    types: match parameter_types {
                        Some(types) => Some(final(types)@),
                        None => None,
                    },
                }) == grammar::function_pointer(
                    env,
                    grammar::rules(env, old(self).depth),
                    old(self)@,
                    match parameter_types {
                        Some(types) => Some(types@),
                        None => None,
                    },
                    modifier,
                    in_args,
                ),
        decreases grammar::room(old(self).depth), 8nat, 1nat, 0nat,
    {
        proof {
            reveal(grammar::function_pointer);
        }
        let checkpoint = self.stack.logical_num();
        let result = match parameter_types {
            Some(ref mut types) => self.parse_function_pointer_type_inner(Some(&mut **types), modifier == 'Q' as u8),
            None => self.parse_function_pointer_type_inner(None, modifier == 'Q' as u8),
        };
        let result = match result {
            Ok(datatype) => match self.record_outer_parameter_type(
                parameter_types,
                in_args,
                &datatype,
            ) {
                Ok(_) => Ok(datatype),
                Err(error) => Err(error),
            },
            Err(error) => Err(error),
        };
        match self.stack.restore_num(checkpoint) {
            Ok(_) => result,
            Err(restore_error) => Err(restore_error),
        }
    }

    /// Reads a pointer to a function, without learning it.
    pub fn parse_function_pointer_type_inner(
        &mut self,
        parameter_types: Option<&mut RefArray>,
        is_const: bool,
    ) -> (r: Result<Datatype, ParseFailure>)
        ensures
            parser::kept(*old(self), *final(self)),
            parser::anchored(*old(self), *final(self)),
            parser::balanced(*old(self), *final(self)),
            forall|env: Env|
                old(self).fits(env) && #[trigger] final(self).budget.agrees(env.grants) ==> old(
                    self,
                ).budget.agrees(env.grants) && (Typed {
                    out: lexer::type_result(r),
                    st: final(self)@,
                    types: match parameter_types {
                        Some(types) => Some(final(types)@),
                        None => None,
                    },
                }) == grammar::function_pointer_inner(
                    env,
                    grammar::rules(env, old(self).depth),
                    old(self)@,
                    match parameter_types {
                        Some(types) => Some(types@),
                        None => None,
                    },
                    is_const,
                ),
        decreases grammar::room(old(self).depth), 8nat, 0nat, 0nat,
    {
        proof {
            reveal(grammar::function_pointer_inner);
            reveal_with_fuel(text::joined, 6);
        }
        let parsed = self.parse_standalone_function_type_body(parameter_types)?;
        let left = self.emit(
            &[
                parsed.return_type.left.as_str(),
                or_empty(&parsed.return_type.right),
                " (",
                literal_or_empty(parsed.calling_convention),
                if is_const {
                    "*const"
                } else {
                    "*"
                },
            ],
        )?;
        let right = self.emit(&[")", parsed.arguments.as_str()])?;
        Ok(Datatype { left, right: Some(right) })
    }

    /// Reads a pointer to a member function.
    pub fn parse_member_function_pointer_type(
        &mut self,
        mut parameter_types: Option<&mut RefArray>,
        in_args: bool,
    ) -> (r: Result<Datatype, ParseFailure>)
        ensures
            parser::kept(*old(self), *final(self)),
            parser::anchored(*old(self), *final(self)),
            parser::balanced(*old(self), *final(self)),
            forall|env: Env|
                old(self).fits(env) && #[trigger] final(self).budget.agrees(env.grants) ==> old(
                    self,
                ).budget.agrees(env.grants) && (Typed {
                    out: lexer::type_result(r),
                    st: final(self)@,
                    types: match parameter_types {
                        Some(types) => Some(final(types)@),
                        None => None,
                    },
                }) == grammar::member_pointer(
                    env,
                    grammar::rules(env, old(self).depth),
                    old(self)@,
                    match parameter_types {
                        Some(types) => Some(types@),
                        None => None,
                    },
                    in_args,
                ),
        decreases grammar::room(old(self).depth), 8nat, 1nat, 0nat,
    {
        proof {
            reveal(grammar::member_pointer);
        }
        let checkpoint = self.stack.logical_num();
        let parsed = match parameter_types {
            Some(ref mut types) => self.parse_member_function_pointer_type_body(Some(&mut **types)),
            None => self.parse_member_function_pointer_type_body(None),
        };
        self.stack.restore_num(checkpoint)?;
        let datatype = self.render_member_function_pointer_type(parsed?)?;
        self.record_outer_parameter_type(parameter_types, in_args, &datatype)?;
        Ok(datatype)
    }

    /// Reads the class, the qualifiers and the signature of a pointer to a member function.
    pub fn parse_member_function_pointer_type_body(
        &mut self,
        parameter_types: Option<&mut RefArray>,
    ) -> (r: Result<MemberFunctionPointerParts, ParseFailure>)
        ensures
            parser::kept(*old(self), *final(self)),
            parser::anchored(*old(self), *final(self)),
            parser::balanced(*old(self), *final(self)),
            forall|env: Env|
                old(self).fits(env) && #[trigger] final(self).budget.agrees(env.grants) ==> old(
                    self,
                ).budget.agrees(env.grants) && (Typed {
                    out: parser::viewed(r),
                    st: final(self)@,
                    types: match parameter_types {
                        Some(types) => Some(final(types)@),
                        None => None,
                    },
                }) == grammar::member_pointer_body(
                    env,
                    grammar::rules(env, old(self).depth),
                    old(self)@,
                    match parameter_types {
                        Some(types) => Some(types@),
                        None => None,
                    },
                ),
        decreases grammar::room(old(self).depth), 8nat, 0nat, 0nat,
    {
        proof {
            reveal(grammar::member_pointer_body);
        }
        let class = self.parse_class_name()?;
        let parsed_modifier = self.read_modifier()?;
        let post_modifier = self.join_modifier(parsed_modifier)?;
        let signature = self.parse_standalone_function_type_body(parameter_types)?;
        Ok(MemberFunctionPointerParts { class, post_modifier, signature })
    }

    /// Joins a qualifier and a pointer keyword, where both are there.
    pub fn join_modifier(
        &mut self,
        modifier: Modifier,
    ) -> (r: Result<Option<MemberFunctionModifier>, ParseFailure>)
        ensures
            parser::kept(*old(self), *final(self)),
            parser::anchored(*old(self), *final(self)),
            parser::balanced(*old(self), *final(self)),
            forall|env: Env|
                old(self).fits(env) && #[trigger] final(self).budget.agrees(env.grants) ==> old(
                    self,
                ).budget.agrees(env.grants) && (Step {
                    out: match r {
                        Ok(joined) => Ok(parser::modifier_view(joined)),
                        Err(error) => Err(error),
                    },
                    st: final(self)@,
                }) == grammar::modifier_text(
                    env,
                    old(self)@,
                    modifier,
                ),
    {
        proof {
            reveal_with_fuel(text::joined, 4);
        }
        match modifier.qualifier {
            Some(qualifier) => match modifier.pointer_modifier {
                Some(pointer_modifier) => {
                    let joined = self.emit(&[qualifier, " ", pointer_modifier])?;
                    Ok(Some(MemberFunctionModifier::Owned(joined)))
                },
                None => Ok(Some(MemberFunctionModifier::Static(qualifier))),
            },
            None => match modifier.pointer_modifier {
                Some(pointer_modifier) => Ok(
                    Some(MemberFunctionModifier::Static(pointer_modifier)),
                ),
                None => Ok(None),
            },
        }
    }

    /// Renders a pointer to a member function.
    pub fn render_member_function_pointer_type(
        &mut self,
        parsed: MemberFunctionPointerParts,
    ) -> (r: Result<Datatype, ParseFailure>)
        ensures
            parser::kept(*old(self), *final(self)),
            parser::anchored(*old(self), *final(self)),
            parser::balanced(*old(self), *final(self)),
            forall|env: Env|
                old(self).fits(env) && #[trigger] final(self).budget.agrees(env.grants) ==> old(
                    self,
                ).budget.agrees(env.grants) && (Step {
                    out: lexer::type_result(r),
                    st: final(self)@,
                }) == grammar::member_pointer_text(
                    env,
                    old(self)@,
                    parsed@,
                ),
    {
        proof {
            reveal_with_fuel(text::joined, 8);
        }
        let signature = parsed.signature;
        let left = self.emit(
            &[
                signature.return_type.left.as_str(),
                or_empty(&signature.return_type.right),
                " (",
                literal_or_empty(signature.calling_convention),
                if signature.calling_convention.is_some() {
                    " "
                } else {
                    ""
                },
                parsed.class.as_str(),
                "::*",
            ],
        )?;
        let right = match parsed.post_modifier {
            Some(modifier) => self.emit(
                &[")", signature.arguments.as_str(), " ", modifier.as_str()],
            )?,
            None => self.emit(&[")", signature.arguments.as_str()])?,
        };
        Ok(Datatype { left, right: Some(right) })
    }
}

} // verus!
