//! Symbols that name operators.

use vstd::prelude::*;
use vstd::string::*;

use crate::error::ParseFailure;
use crate::function_name::FunctionName;
use crate::msvc::codes::{
    decode_primary_operator, decode_rtti_operator, decode_secondary_operator,
    decode_tertiary_operator, DynamicOperator, OperatorAction, RttiOperator,
};
use crate::msvc::codes;
use crate::msvc::grammar::{Env, Step};
use crate::msvc::grammar;
use crate::msvc::lexer::allocate_concat;
use crate::msvc::parser::MsvcParser;
use crate::msvc::parser;
use crate::msvc::state::RefArray;
use crate::text::or_empty;
use crate::text;

verus! {

impl<'a> MsvcParser<'a> {
    /// Parses a symbol that names an operator.
    pub fn parse_operator_method_inner(&mut self) -> (r: Result<FunctionName, ParseFailure>)
        ensures
            r matches Ok(name) ==> parser::paid_for(name@.full, *final(self)),
            parser::kept(*old(self), *final(self)),
            forall|env: Env|
                old(self).fits(env) && #[trigger] final(self).budget.agrees(env.grants) ==> old(
                    self,
                ).budget.agrees(env.grants) && (Step {
                    out: parser::viewed(r),
                    st: final(self)@,
                }) == grammar::operator_symbol(
                    env,
                    grammar::rules(env, old(self).depth),
                    old(self)@,
                ),
        decreases grammar::room(old(self).depth), 10nat, 3nat, 0nat,
    {
        proof {
            reveal(grammar::operator_symbol);
        }
        let prefix_offset = self.cursor.position();
        if !self.cursor.reads(0, '?') {
            return Err(
                ParseFailure::InvalidMsvcPrefix {
                    offset: prefix_offset,
                    found: self.cursor.peek(0),
                },
            );
        }
        self.cursor.advance(1)?;
        let operator_offset = self.cursor.position();
        let template = if self.cursor.reads(0, '?') && self.cursor.reads(1, '$')
            && self.cursor.reads(2, '?') {
            self.cursor.advance(3)?;
            true
        } else if self.cursor.reads(0, '?') && !self.cursor.reads(1, '$') {
            self.cursor.advance(1)?;
            false
        } else {
            return Err(
                ParseFailure::InvalidOperatorPrefix {
                    offset: operator_offset,
                    found: self.cursor.peek(0),
                },
            );
        };
        self.parse_operator_body(template)
    }

    /// Parses an operator symbol, from its code on.
    pub fn parse_operator_body(&mut self, template: bool) -> (r: Result<FunctionName, ParseFailure>)
        ensures
            r matches Ok(name) ==> parser::paid_for(name@.full, *final(self)),
            parser::kept(*old(self), *final(self)),
            forall|env: Env|
                old(self).fits(env) && #[trigger] final(self).budget.agrees(env.grants) ==> old(
                    self,
                ).budget.agrees(env.grants) && (Step {
                    out: parser::viewed(r),
                    st: final(self)@,
                }) == grammar::operator_body(
                    env,
                    grammar::rules(env, old(self).depth),
                    old(self)@,
                    template,
                ),
        decreases grammar::room(old(self).depth), 10nat, 2nat, 0nat,
    {
        proof {
            reveal(grammar::operator_body);
        }
        let action = self.parse_operator_action()?;
        let mut owned_name = self.parse_spelled_operator_name(action)?;
        if template {
            owned_name = self.parse_operator_arguments(action, owned_name)?;
        }
        if let OperatorAction::ImmediateString(fixed) = action {
            let name = match owned_name {
                Some(name) => name,
                None => self.emit_copy(fixed)?,
            };
            return self.finish_name(name);
        }
        self.collect_operator_scope(action, owned_name)?;
        self.name_class_operator(action)?;
        self.parse_operator_signature(action)
    }

    /// Reads an operator code.
    pub fn parse_operator_action(&mut self) -> (r: Result<OperatorAction, ParseFailure>)
        ensures
            parser::kept(*old(self), *final(self)),
            parser::anchored(*old(self), *final(self)),
            parser::balanced(*old(self), *final(self)),
            forall|env: Env|
                old(self).fits(env) && #[trigger] final(self).budget.agrees(env.grants) ==> old(
                    self,
                ).budget.agrees(env.grants) && (Step {
                    out: r,
                    st: final(self)@,
                }) == old(self)@.lift(grammar::operator_action(env, old(self)@.tape)),
    {
        let offset = self.cursor.position();
        let code = self.cursor.next()?;
        if code == '_' as u8 {
            return self.parse_secondary_operator_action();
        }
        match decode_primary_operator(code) {
            Some(action) => Ok(action),
            None => Err(ParseFailure::UnsupportedOperatorCode { offset, found: code }),
        }
    }

    /// Reads an operator code behind one underscore.
    pub fn parse_secondary_operator_action(&mut self) -> (r: Result<OperatorAction, ParseFailure>)
        ensures
            parser::kept(*old(self), *final(self)),
            parser::anchored(*old(self), *final(self)),
            parser::balanced(*old(self), *final(self)),
            forall|env: Env|
                old(self).fits(env) && #[trigger] final(self).budget.agrees(env.grants) ==> old(
                    self,
                ).budget.agrees(env.grants) && (Step {
                    out: r,
                    st: final(self)@,
                }) == old(self)@.lift(grammar::secondary_action(env, old(self)@.tape)),
    {
        let offset = self.cursor.position();
        let code = self.cursor.next()?;
        if code == '_' as u8 {
            return self.parse_tertiary_operator_action();
        }
        if code == 'R' as u8 {
            return self.parse_rtti_operator_action();
        }
        match decode_secondary_operator(code) {
            Some(action) => Ok(action),
            None => Err(ParseFailure::UnsupportedOperatorCode { offset, found: code }),
        }
    }

    /// Reads the code of run-time type information.
    pub fn parse_rtti_operator_action(&mut self) -> (r: Result<OperatorAction, ParseFailure>)
        ensures
            parser::kept(*old(self), *final(self)),
            parser::anchored(*old(self), *final(self)),
            parser::balanced(*old(self), *final(self)),
            forall|env: Env|
                old(self).fits(env) && #[trigger] final(self).budget.agrees(env.grants) ==> old(
                    self,
                ).budget.agrees(env.grants) && (Step {
                    out: r,
                    st: final(self)@,
                }) == old(self)@.lift(
                    grammar::operator_code(
                        env,
                        old(self)@.tape,
                        |code: char| codes::rtti_operator(code),
                    ),
                ),
    {
        let offset = self.cursor.position();
        let code = self.cursor.next()?;
        match decode_rtti_operator(code) {
            Some(action) => Ok(action),
            None => Err(ParseFailure::UnsupportedOperatorCode { offset, found: code }),
        }
    }

    /// Reads an operator code behind two underscores.
    pub fn parse_tertiary_operator_action(&mut self) -> (r: Result<OperatorAction, ParseFailure>)
        ensures
            parser::kept(*old(self), *final(self)),
            parser::anchored(*old(self), *final(self)),
            parser::balanced(*old(self), *final(self)),
            forall|env: Env|
                old(self).fits(env) && #[trigger] final(self).budget.agrees(env.grants) ==> old(
                    self,
                ).budget.agrees(env.grants) && (Step {
                    out: r,
                    st: final(self)@,
                }) == old(self)@.lift(
                    grammar::operator_code(
                        env,
                        old(self)@.tape,
                        |code: char| codes::tertiary_operator(code),
                    ),
                ),
    {
        let offset = self.cursor.position();
        let code = self.cursor.next()?;
        match decode_tertiary_operator(code) {
            Some(action) => Ok(action),
            None => Err(ParseFailure::UnsupportedOperatorCode { offset, found: code }),
        }
    }

    /// Reads the name of an operator that is spelled out in the symbol.
    pub fn parse_spelled_operator_name(
        &mut self,
        action: OperatorAction,
    ) -> (r: Result<Option<String>, ParseFailure>)
        ensures
            r matches Ok(rendered) ==> parser::paid_for_any(rendered, *final(self)),
            parser::kept(*old(self), *final(self)),
            parser::anchored(*old(self), *final(self)),
            parser::balanced(*old(self), *final(self)),
            forall|env: Env|
                old(self).fits(env) && #[trigger] final(self).budget.agrees(env.grants) ==> old(
                    self,
                ).budget.agrees(env.grants) && (Step {
                    out: text::optional_result(r),
                    st: final(self)@,
                }) == grammar::spelled_name(
                    env,
                    grammar::rules(env, old(self).depth),
                    old(self)@,
                    action,
                ),
        decreases grammar::room(old(self).depth), 9nat, 0nat, 0nat,
    {
        proof {
            reveal(grammar::spelled_name);
        }
        match action {
            OperatorAction::Rtti(operator) => self.parse_rtti_operator_name(operator),
            OperatorAction::Dynamic(operator) => {
                let name = self.parse_dynamic_operator_name(operator)?;
                Ok(Some(name))
            },
            _ => Ok(None),
        }
    }

    /// Reads the name of run-time type information, where it depends on what follows.
    pub fn parse_rtti_operator_name(
        &mut self,
        operator: RttiOperator,
    ) -> (r: Result<Option<String>, ParseFailure>)
        ensures
            r matches Ok(rendered) ==> parser::paid_for_any(rendered, *final(self)),
            parser::kept(*old(self), *final(self)),
            parser::anchored(*old(self), *final(self)),
            parser::balanced(*old(self), *final(self)),
            forall|env: Env|
                old(self).fits(env) && #[trigger] final(self).budget.agrees(env.grants) ==> old(
                    self,
                ).budget.agrees(env.grants) && (Step {
                    out: text::optional_result(r),
                    st: final(self)@,
                }) == grammar::rtti_name(
                    env,
                    grammar::rules(env, old(self).depth),
                    old(self)@,
                    operator,
                ),
        decreases grammar::room(old(self).depth), 8nat, 0nat, 0nat,
    {
        proof {
            reveal(grammar::rtti_name);
            reveal_with_fuel(text::joined, 10);
        }
        match operator {
            RttiOperator::TypeDescriptor => {
                let checkpoint = self.stack.logical_num();
                let mut parameter_types = RefArray::new();
                let parsed = self.parse_datatype(Some(&mut parameter_types), false);
                self.stack.restore_num(checkpoint)?;
                let datatype = parsed?;
                let name = self.emit(
                    &[
                        datatype.left.as_str(),
                        or_empty(&datatype.right),
                        " `RTTI Type Descriptor'",
                    ],
                )?;
                Ok(Some(name))
            },
            RttiOperator::BaseClassDescriptor => {
                let n1 = self.read_number()?;
                let n2 = self.read_number()?;
                let n3 = self.read_number()?;
                let n4 = self.read_number()?;
                let name = self.emit(
                    &[
                        "`RTTI Base Class Descriptor at (",
                        n1.as_str(),
                        ",",
                        n2.as_str(),
                        ",",
                        n3.as_str(),
                        ",",
                        n4.as_str(),
                        ")'",
                    ],
                )?;
                Ok(Some(name))
            },
            _ => Ok(None),
        }
    }

    /// Reads the name of code that runs around the lifetime of a variable.
    pub fn parse_dynamic_operator_name(
        &mut self,
        operator: DynamicOperator,
    ) -> (r: Result<String, ParseFailure>)
        ensures
            r matches Ok(rendered) ==> parser::paid_for(rendered@, *final(self)),
            parser::kept(*old(self), *final(self)),
            parser::anchored(*old(self), *final(self)),
            parser::balanced(*old(self), *final(self)),
            forall|env: Env|
                old(self).fits(env) && #[trigger] final(self).budget.agrees(env.grants) ==> old(
                    self,
                ).budget.agrees(env.grants) && (Step {
                    out: text::text_result(r),
                    st: final(self)@,
                }) == grammar::dynamic_name(
                    env,
                    grammar::rules(env, old(self).depth),
                    old(self)@,
                    operator,
                ),
        decreases grammar::room(old(self).depth), 8nat, 0nat, 0nat,
    {
        proof {
            reveal(grammar::dynamic_name);
            reveal_with_fuel(text::joined, 4);
        }
        let prefix = match operator {
            DynamicOperator::Initializer => "`dynamic initializer for '",
            DynamicOperator::AtexitDestructor => "`dynamic atexit destructor for '",
        };
        if self.cursor.reads(0, '?') {
            let nested = self.parse_nested_symbol()?;
            self.cursor.advance(1)?;
            self.emit(&[prefix, nested.full_name(), "''"])
        } else {
            let literal = self.read_literal()?;
            self.emit(&[prefix, literal.as_str(), "''"])
        }
    }

    /// Reads the template arguments of an operator and appends them to its name.
    pub fn parse_operator_arguments(
        &mut self,
        action: OperatorAction,
        owned_name: Option<String>,
    ) -> (r: Result<Option<String>, ParseFailure>)
        ensures
            parser::paid_for_any(owned_name, *old(self)) && r is Ok ==> parser::paid_for_any(
                r->Ok_0,
                *final(self),
            ),
            parser::kept(*old(self), *final(self)),
            parser::anchored(*old(self), *final(self)),
            parser::balanced(*old(self), *final(self)),
            forall|env: Env|
                old(self).fits(env) && #[trigger] final(self).budget.agrees(env.grants) ==> old(
                    self,
                ).budget.agrees(env.grants) && (Step {
                    out: text::optional_result(r),
                    st: final(self)@,
                }) == grammar::operator_arguments(
                    env,
                    grammar::rules(env, old(self).depth),
                    old(self)@,
                    action,
                    text::owned_text(owned_name),
                ),
        decreases grammar::room(old(self).depth), 8nat, 0nat, 0nat,
    {
        proof {
            reveal(grammar::operator_arguments);
            reveal_with_fuel(text::joined, 3);
        }
        let mut local_parameter_types = RefArray::new();
        let parsed = match self.parse_arguments(
            Some(&mut local_parameter_types),
            false,
            '<' as u8,
            '>' as u8,
        ) {
            Ok(arguments) => Some(arguments),
            Err(error) => match error {
                ParseFailure::InvalidReferenceRestore { requested, max } => return Err(error),
                ParseFailure::InvalidReferenceStart { requested, max } => return Err(error),
                _ => None,
            },
        };
        self.names.restore_num(0)?;
        match parsed {
            Some(arguments) => match owned_name {
                Some(name) => Ok(Some(self.emit(&[name.as_str(), arguments.as_str()])?)),
                None => match action.base_name() {
                    Some(name) => Ok(Some(self.emit(&[name, arguments.as_str()])?)),
                    None => Ok(Some(arguments)),
                },
            },
            None => Ok(owned_name),
        }
    }

    /// Puts the name of an operator and the components of its scope on the stack.
    pub fn collect_operator_scope(
        &mut self,
        action: OperatorAction,
        owned_name: Option<String>,
    ) -> (r: Result<(), ParseFailure>)
        ensures
            parser::kept(*old(self), *final(self)),
            parser::anchored(*old(self), *final(self)),
            forall|env: Env|
                old(self).fits(env) && #[trigger] final(self).budget.agrees(env.grants) ==> old(
                    self,
                ).budget.agrees(env.grants) && (Step {
                    out: r,
                    st: final(self)@,
                }) == grammar::operator_scope(
                    env,
                    grammar::rules(env, old(self).depth),
                    old(self)@,
                    action,
                    text::owned_text(owned_name),
                ),
        decreases grammar::room(old(self).depth), 8nat, 0nat, 0nat,
    {
        proof {
            reveal(grammar::operator_scope);
        }
        if action.is_constructor_or_destructor() {
            self.stack.push("--null--", &mut self.budget)?;
        }
        match owned_name {
            Some(name) => self.stack.push(name.as_str(), &mut self.budget)?,
            None => match action.base_name() {
                Some(name) => self.stack.push(name, &mut self.budget)?,
                None => {},
            },
        }
        if self.cursor.reads(0, '@') {
            self.cursor.advance(1)?;
            return Ok(());
        }
        if self.cursor.reads(0, '$') {
            return Err(
                ParseFailure::UnsupportedClassComponent {
                    offset: self.cursor.position(),
                    found: '$' as u8,
                },
            );
        }
        let checkpoint = self.stack.logical_num();
        self.collect_class_components(checkpoint)
    }

    /// Names a constructor or destructor after its class.
    pub fn name_class_operator(&mut self, action: OperatorAction) -> (r: Result<(), ParseFailure>)
        ensures
            parser::kept(*old(self), *final(self)),
            parser::anchored(*old(self), *final(self)),
            forall|env: Env|
                old(self).fits(env) && #[trigger] final(self).budget.agrees(env.grants) ==> old(
                    self,
                ).budget.agrees(env.grants) && (Step {
                    out: r,
                    st: final(self)@,
                }) == grammar::class_operator(
                    env,
                    old(self)@,
                    action,
                ),
    {
        proof {
            reveal_with_fuel(text::joined, 3);
        }
        let offset = self.cursor.position();
        if !action.is_constructor_or_destructor() {
            return Ok(());
        }
        if self.stack.logical_num() <= 1 {
            return Err(ParseFailure::EmptyClass { offset });
        }
        let class_name = self.stack.active_absolute_reference(1)?;
        let replacement = match action {
            OperatorAction::Constructor => self.budget.copy_string(class_name)?,
            _ => allocate_concat(&mut self.budget, &["~", class_name])?,
        };
        self.stack.replace_active_owned(0, replacement)
    }

    /// Parses what follows the scope of an operator.
    pub fn parse_operator_signature(
        &mut self,
        action: OperatorAction,
    ) -> (r: Result<FunctionName, ParseFailure>)
        ensures
            r matches Ok(name) ==> parser::paid_for(name@.full, *final(self)),
            parser::kept(*old(self), *final(self)),
            parser::anchored(*old(self), *final(self)),
            forall|env: Env|
                old(self).fits(env) && #[trigger] final(self).budget.agrees(env.grants) ==> old(
                    self,
                ).budget.agrees(env.grants) && (Step {
                    out: parser::viewed(r),
                    st: final(self)@,
                }) == grammar::operator_signature(
                    env,
                    grammar::rules(env, old(self).depth),
                    old(self)@,
                    action,
                ),
        decreases grammar::room(old(self).depth), 10nat, 1nat, 0nat,
    {
        proof {
            reveal(grammar::operator_signature);
        }
        if let Some(code) = self.cursor.peek(0) {
            if code >= '0' as u8 && code <= '9' as u8 {
                return self.parse_data_signature();
            }
        }
        let cast_operator = match action {
            OperatorAction::Conversion => true,
            _ => false,
        };
        self.parse_method_signature(
            cast_operator,
            action.is_constructor_or_destructor() || action.has_no_function_return(),
        )
    }
}

} // verus!
