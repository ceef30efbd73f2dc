//! Function signatures.

use vstd::prelude::*;
use vstd::string::*;

use crate::error::ParseFailure;
use crate::function_name::{FunctionName, FunctionNameError};
use crate::limits::MAX_OUTPUT_BYTES;
use crate::msvc::codes::{decode_calling_convention, thunk_access, MethodKind, ThunkKind};
use crate::msvc::flags::{
    UNDNAME_NAME_ONLY, UNDNAME_NO_ACCESS_SPECIFIERS, UNDNAME_NO_FUNCTION_RETURNS,
    UNDNAME_NO_MEMBER_TYPE, UNDNAME_NO_THISTYPE,
};
use crate::msvc::grammar::{Env, Step, Typed};
use crate::msvc::grammar;
use crate::msvc::lexer::Datatype;
use crate::msvc::lexer;
use crate::msvc::parser::{MethodHead, MethodParts, MsvcParser};
use crate::msvc::parser;
use crate::msvc::state::RefArray;
use crate::text::{byte_len, is_blank, literal_or_empty, or_empty};
use crate::text;

verus! {

impl<'a> MsvcParser<'a> {
    /// Parses a function, from its code on.
    pub fn parse_method_signature(
        &mut self,
        cast_operator: bool,
        no_return: bool,
    ) -> (r: Result<FunctionName, ParseFailure>)
        ensures
            r matches Ok(name) ==> parser::paid_for(name@.full, *final(self)),
            parser::kept(*old(self), *final(self)),
            parser::anchored(*old(self), *final(self)),
            parser::balanced(*old(self), *final(self)),
            forall|env: Env|
                old(self).fits(env) && #[trigger] final(self).budget.agrees(env.grants) ==> old(
                    self,
                ).budget.agrees(env.grants) && (Step {
                    out: parser::viewed(r),
                    st: final(self)@,
                }) == grammar::method_signature(
                    env,
                    grammar::rules(env, old(self).depth),
                    old(self)@,
                    cast_operator,
                    no_return,
                ),
        decreases grammar::room(old(self).depth), 9nat, 1nat, 0nat,
    {
        proof {
            reveal(grammar::method_signature);
        }
        let parts = self.parse_method_parts(cast_operator, no_return)?;
        let (rendered, selector_start) = self.render_method(parts)?;
        self.name_pos = selector_start;
        self.finish_name(rendered)
    }

    /// Reads everything that a function signature holds.
    pub fn parse_method_parts(
        &mut self,
        cast_operator: bool,
        no_return: bool,
    ) -> (r: Result<MethodParts, ParseFailure>)
        ensures
            parser::kept(*old(self), *final(self)),
            parser::anchored(*old(self), *final(self)),
            parser::balanced(*old(self), *final(self)),
            forall|env: Env|
                old(self).fits(env) && #[trigger] final(self).budget.agrees(env.grants) ==> old(
                    self,
                ).budget.agrees(env.grants) && (Step {
                    out: parser::viewed(r),
                    st: final(self)@,
                }) == grammar::method_parts(
                    env,
                    grammar::rules(env, old(self).depth),
                    old(self)@,
                    cast_operator,
                    no_return,
                ),
        decreases grammar::room(old(self).depth), 9nat, 0nat, 0nat,
    {
        proof {
            reveal(grammar::method_parts);
        }
        let head = self.parse_method_head()?;
        let modifier = self.parse_this_modifier(head.kind.has_this)?;
        let calling_convention_byte = self.cursor.next()?;
        let calling_convention = decode_calling_convention(calling_convention_byte, self.flags)?;
        let mut parameter_types = RefArray::new();
        let parsed_return = self.parse_return_type(
            Some(&mut parameter_types),
            head.kind.has_return,
        )?;
        let (name, return_type) = self.show_return(
            head.name,
            parsed_return,
            cast_operator,
            no_return,
        )?;
        let arguments = self.parse_method_arguments(
            &mut parameter_types,
            head.kind.has_arguments,
        )?;
        Ok(
            MethodParts {
                kind: head.kind,
                base_access: head.base_access,
                thunk_access: head.thunk_access,
                name,
                modifier,
                calling_convention,
                return_type,
                arguments,
            },
        )
    }

    /// Reads the code of a function and renders its name.
    pub fn parse_method_head(&mut self) -> (r: Result<MethodHead, ParseFailure>)
        ensures
            parser::kept(*old(self), *final(self)),
            parser::anchored(*old(self), *final(self)),
            parser::balanced(*old(self), *final(self)),
            forall|env: Env|
                old(self).fits(env) && #[trigger] final(self).budget.agrees(env.grants) ==> old(
                    self,
                ).budget.agrees(env.grants) && (Step {
                    out: parser::viewed(r),
                    st: final(self)@,
                }) == grammar::method_head(
                    env,
                    old(self)@,
                ),
    {
        proof {
            reveal_with_fuel(text::joined, 3);
        }
        let kind = self.parse_method_kind()?;
        let base_access = if self.flags & UNDNAME_NO_ACCESS_SPECIFIERS != 0 {
            ""
        } else {
            kind.access
        };
        let name = self.read_class_name(0)?;
        match kind.thunk {
            Some(thunk) => {
                let thunk_access = self.emit(&["[thunk]:", base_access])?;
                let name = self.parse_thunk_name(name, thunk)?;
                Ok(MethodHead { kind, base_access, thunk_access: Some(thunk_access), name })
            },
            None => Ok(MethodHead { kind, base_access, thunk_access: None, name }),
        }
    }

    /// Reads the qualifiers of `this`, where the function has one.
    pub fn parse_this_modifier(
        &mut self,
        has_this: bool,
    ) -> (r: Result<Option<String>, ParseFailure>)
        ensures
            parser::kept(*old(self), *final(self)),
            parser::anchored(*old(self), *final(self)),
            parser::balanced(*old(self), *final(self)),
            forall|env: Env|
                old(self).fits(env) && #[trigger] final(self).budget.agrees(env.grants) ==> old(
                    self,
                ).budget.agrees(env.grants) && (Step {
                    out: text::optional_result(r),
                    st: final(self)@,
                }) == grammar::this_modifier(
                    env,
                    old(self)@,
                    has_this,
                ),
    {
        proof {
            reveal_with_fuel(text::joined, 4);
        }
        if !has_this {
            return Ok(None);
        }
        let parsed_modifier = self.read_modifier()?;
        if self.flags & UNDNAME_NO_THISTYPE == 0 && (parsed_modifier.qualifier.is_some()
            || parsed_modifier.pointer_modifier.is_some()) {
            let shown = self.emit(
                &[
                    literal_or_empty(parsed_modifier.qualifier),
                    " ",
                    literal_or_empty(parsed_modifier.pointer_modifier),
                ],
            )?;
            return Ok(Some(shown));
        }
        Ok(None)
    }

    /// Reads the return type of a function that has one.
    pub fn parse_return_type(
        &mut self,
        parameter_types: Option<&mut RefArray>,
        has_return: bool,
    ) -> (r: Result<Datatype, ParseFailure>)
        ensures
            parser::kept(*old(self), *final(self)),
            parser::anchored(*old(self), *final(self)),
            parser::balanced(*old(self), *final(self)),
            forall|env: Env|
                old(self).fits(env) && #[trigger] final(self).budget.agrees(env.grants) ==> old(
                    self,
                ).budget.agrees(env.grants) && (Typed {
                    out: lexer::type_result(r),
                    st: final(self)@,
                    types: match parameter_types {
                        Some(types) => Some(final(types)@),
                        None => None,
                    },
                }) == grammar::return_type(
                    env,
                    grammar::rules(env, old(self).depth),
                    old(self)@,
                    match parameter_types {
                        Some(types) => Some(types@),
                        None => None,
                    },
                    has_return,
                ),
        decreases grammar::room(old(self).depth), 8nat, 0nat, 0nat,
    {
        proof {
            reveal(grammar::return_type);
        }
        if !has_return {
                return Ok(Datatype { left: String::new(), right: None });
        }
        if self.cursor.reads(0, '@') {
            self.cursor.advance(1)?;
            let left = self.emit_copy("void")?;
            return Ok(Datatype { left, right: None });
        }
        self.parse_datatype(parameter_types, false)
    }

    /// The name and the return type as they are shown.
    pub fn show_return(
        &mut self,
        name: String,
        return_type: Datatype,
        cast_operator: bool,
        no_return: bool,
    ) -> (r: Result<(String, Datatype), ParseFailure>)
        ensures
            parser::kept(*old(self), *final(self)),
            parser::anchored(*old(self), *final(self)),
            parser::balanced(*old(self), *final(self)),
            forall|env: Env|
                old(self).fits(env) && #[trigger] final(self).budget.agrees(env.grants) ==> old(
                    self,
                ).budget.agrees(env.grants) && (Step {
                    out: match r {
                        Ok((name, return_type)) => Ok((name@, return_type@)),
                        Err(error) => Err(error),
                    },
                    st: final(self)@,
                }) == grammar::shown_return(
                    env,
                    old(self)@,
                    name@,
                    return_type@,
                    cast_operator,
                    no_return,
                ),
    {
        proof {
            reveal_with_fuel(text::joined, 4);
        }
        if cast_operator {
            let full = self.emit(
                &[name.as_str(), return_type.left.as_str(), or_empty(&return_type.right)],
            )?;
            return Ok((full, Datatype { left: String::new(), right: None }));
        }
        if self.flags & UNDNAME_NO_FUNCTION_RETURNS != 0 || no_return {
            return Ok((name, Datatype { left: String::new(), right: None }));
        }
        Ok((name, return_type))
    }

    /// Reads the argument list of a function that has one.
    pub fn parse_method_arguments(
        &mut self,
        types: &mut RefArray,
        has_arguments: bool,
    ) -> (r: Result<String, ParseFailure>)
        ensures
            parser::kept(*old(self), *final(self)),
            parser::anchored(*old(self), *final(self)),
            parser::balanced(*old(self), *final(self)),
            forall|env: Env|
                old(self).fits(env) && #[trigger] final(self).budget.agrees(env.grants) ==> old(
                    self,
                ).budget.agrees(env.grants) && (Step {
                    out: text::text_result(r),
                    st: final(self)@,
                }) == grammar::method_arguments(
                    env,
                    grammar::rules(env, old(self).depth),
                    old(self)@,
                    Some(old(types)@),
                    has_arguments,
                ),
        decreases grammar::room(old(self).depth), 8nat, 0nat, 0nat,
    {
        proof {
            reveal(grammar::method_arguments);
        }
        if !has_arguments {
            return Ok(String::new());
        }
        let stack_checkpoint = self.stack.logical_num();
        let parsed_arguments = self.parse_arguments(Some(types), true, '(' as u8, ')' as u8);
        match self.stack.restore_num(stack_checkpoint) {
            Ok(_) => parsed_arguments,
            Err(error) => Err(error),
        }
    }

    /// Renders a function and tells where its selector starts.
    pub fn render_method(
        &mut self,
        parts: MethodParts,
    ) -> (r: Result<(String, usize), ParseFailure>)
        ensures
            r matches Ok((rendered, _)) ==> parser::paid_for(rendered@, *final(self)),
            parser::kept(*old(self), *final(self)),
            parser::anchored(*old(self), *final(self)),
            parser::balanced(*old(self), *final(self)),
            forall|env: Env|
                old(self).fits(env) && #[trigger] final(self).budget.agrees(env.grants) ==> old(
                    self,
                ).budget.agrees(env.grants) && (Step {
                    out: match r {
                        Ok((rendered, start)) => Ok((rendered@, start)),
                        Err(error) => Err(error),
                    },
                    st: final(self)@,
                }) == ({
                    let prefix = grammar::method_prefix(env, parts@);
                    let rendered = old(self)@.emit(
                        env,
                        prefix + grammar::method_selector(env, parts@),
                    );
                    Step {
                        out: match rendered.out {
                            Ok(full) => Ok((full, text::byte_width(prefix) as usize)),
                            Err(error) => Err(error),
                        },
                        st: rendered.st,
                    }
                }),
    {
        proof {
            reveal_strlit("");
            assert(""@ =~= Seq::<char>::empty());
        }
        let access = match &parts.thunk_access {
            Some(access) => access.as_str(),
            None => parts.base_access,
        };
        let member_type = if self.flags & UNDNAME_NO_MEMBER_TYPE != 0 {
            ""
        } else {
            parts.kind.member_type
        };
        let name_only = parts.kind.has_arguments && self.flags & UNDNAME_NAME_ONLY != 0;
        let arguments = if name_only {
            ""
        } else {
            parts.arguments.as_str()
        };
        let modifier = if name_only {
            ""
        } else {
            or_empty(&parts.modifier)
        };
        let name = parts.name.as_str();
        let return_left = parts.return_type.left.as_str();
        let return_right = or_empty(&parts.return_type.right);
        let return_blank = if !is_blank(return_left) && parts.return_type.right.is_none() {
            " "
        } else {
            ""
        };
        let convention = literal_or_empty(parts.calling_convention.calling_convention);
        let convention_blank = if parts.calling_convention.calling_convention.is_some() {
            " "
        } else {
            ""
        };
        let exported = literal_or_empty(parts.calling_convention.exported);
        let ghost prefix = access@ + member_type@ + return_left@ + return_blank@ + convention@
            + convention_blank@ + exported@;
        let ghost selector = name@ + arguments@ + modifier@ + return_right@;
        proof {
            assert(prefix + name@ + arguments@ + modifier@ + return_right@ =~= prefix + selector);
            text::lemma_byte_width_concat(prefix, selector);
            text::lemma_byte_width_concat(name@ + arguments@ + modifier@, return_right@);
            text::lemma_byte_width_concat(name@ + arguments@, modifier@);
            text::lemma_byte_width_concat(name@, arguments@);
            assert(text::byte_width(selector) == text::byte_width(name@) + text::byte_width(
                arguments@,
            ) + text::byte_width(modifier@) + text::byte_width(return_right@));
        }
        let pieces = [
            access,
            member_type,
            return_left,
            return_blank,
            convention,
            convention_blank,
            exported,
            name,
            arguments,
            modifier,
            return_right,
        ];
        assert(text::joined(pieces@, 11) == prefix + selector) by {
            reveal_with_fuel(text::joined, 12);
        }
        let rendered = self.emit(&pieces)?;
        let len = byte_len(rendered.as_str());
        assert(len == text::byte_width(prefix) + text::byte_width(selector));
        let too_long = Err(
            ParseFailure::OutputLimitExceeded { attempted: usize::MAX, limit: MAX_OUTPUT_BYTES },
        );
        let mut selector_len: usize = byte_len(name);
        selector_len = match selector_len.checked_add(byte_len(arguments)) {
            Some(selector_len) => selector_len,
            None => return too_long,
        };
        selector_len = match selector_len.checked_add(byte_len(modifier)) {
            Some(selector_len) => selector_len,
            None => return too_long,
        };
        selector_len = match selector_len.checked_add(byte_len(return_right)) {
            Some(selector_len) => selector_len,
            None => return too_long,
        };
        match len.checked_sub(selector_len) {
            Some(selector_start) => Ok((rendered, selector_start)),
            None => Err(
                ParseFailure::FunctionNameValidation(
                    FunctionNameError::SelectorOutOfBounds { selector_start: selector_len, len },
                ),
            ),
        }
    }

    /// Reads the code of a function.
    pub fn parse_method_kind(&mut self) -> (r: Result<MethodKind, ParseFailure>)
        ensures
            parser::kept(*old(self), *final(self)),
            parser::anchored(*old(self), *final(self)),
            parser::balanced(*old(self), *final(self)),
            forall|env: Env|
                old(self).fits(env) && #[trigger] final(self).budget.agrees(env.grants) ==> old(
                    self,
                ).budget.agrees(env.grants) && (Step {
                    out: r,
                    st: final(self)@,
                }) == old(self)@.lift(grammar::method_code(env, old(self)@.tape)),
    {
        let offset = self.cursor.position();
        let code = self.cursor.next()?;
        match code as char {
            'A'..='Z' => Ok(MethodKind::decode(code)),
            '$' => self.parse_extended_method_kind(),
            _ => Err(ParseFailure::UnsupportedMethodEncoding { offset, found: code }),
        }
    }

    /// Reads the code of a thunk, from behind its `$`.
    pub fn parse_extended_method_kind(&mut self) -> (r: Result<MethodKind, ParseFailure>)
        ensures
            parser::kept(*old(self), *final(self)),
            parser::anchored(*old(self), *final(self)),
            parser::balanced(*old(self), *final(self)),
            forall|env: Env|
                old(self).fits(env) && #[trigger] final(self).budget.agrees(env.grants) ==> old(
                    self,
                ).budget.agrees(env.grants) && (Step {
                    out: r,
                    st: final(self)@,
                }) == old(self)@.lift(grammar::extended_method_kind(env, old(self)@.tape)),
    {
        let offset = self.cursor.position();
        let code = self.cursor.next()?;
        match code as char {
            'B' => Ok(MethodKind::thunk("", ThunkKind::Vcall)),
            'R' => {
                let subtype_offset = self.cursor.position();
                let subtype = self.cursor.next()?;
                match thunk_access(subtype) {
                    Some(access) => Ok(MethodKind::thunk(access, ThunkKind::Vtordispex)),
                    None => Err(
                        ParseFailure::UnsupportedMethodEncoding {
                            offset: subtype_offset,
                            found: subtype,
                        },
                    ),
                }
            },
            _ => match thunk_access(code) {
                Some(access) => Ok(MethodKind::thunk(access, ThunkKind::Vtordisp)),
                None => Err(ParseFailure::UnsupportedMethodEncoding { offset, found: code }),
            },
        }
    }

    /// Reads the adjustments of a thunk and appends them to its name.
    pub fn parse_thunk_name(
        &mut self,
        name: String,
        thunk: ThunkKind,
    ) -> (r: Result<String, ParseFailure>)
        ensures
            parser::kept(*old(self), *final(self)),
            parser::anchored(*old(self), *final(self)),
            parser::balanced(*old(self), *final(self)),
            forall|env: Env|
                old(self).fits(env) && #[trigger] final(self).budget.agrees(env.grants) ==> old(
                    self,
                ).budget.agrees(env.grants) && (Step {
                    out: text::text_result(r),
                    st: final(self)@,
                }) == old(self)@.lift(
                    grammar::thunk_name(env, old(self)@.tape, name@, thunk),
                ),
    {
        proof {
            reveal_with_fuel(text::joined, 11);
        }
        match thunk {
            ThunkKind::Adjustor => {
                let number = self.read_number()?;
                self.emit(&[name.as_str(), "`adjustor{", number.as_str(), "}' "])
            },
            ThunkKind::Vtordisp => {
                let first = self.read_number()?;
                let second = self.read_number()?;
                self.emit(
                    &[name.as_str(), "`vtordisp{", first.as_str(), ",", second.as_str(), "}' "],
                )
            },
            ThunkKind::Vtordispex => {
                let first = self.read_number()?;
                let second = self.read_number()?;
                let third = self.read_number()?;
                let fourth = self.read_number()?;
                self.emit(
                    &[
                        name.as_str(),
                        "`vtordispex{",
                        first.as_str(),
                        ",",
                        second.as_str(),
                        ",",
                        third.as_str(),
                        ",",
                        fourth.as_str(),
                        "}' ",
                    ],
                )
            },
            ThunkKind::Vcall => {
                let number = self.read_number()?;
                let flat_offset = self.cursor.position();
                let flat = self.cursor.next()?;
                if flat != 'A' as u8 {
                    return Err(
                        ParseFailure::UnsupportedMethodEncoding {
                            offset: flat_offset,
                            found: flat,
                        },
                    );
                }
                self.emit(&[name.as_str(), "{", number.as_str(), "{flat}}' "])
            },
        }
    }
}

} // verus!
