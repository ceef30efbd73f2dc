//! Whole symbols, and variables.

use vstd::prelude::*;
use vstd::string::*;

use crate::error::ParseFailure;
use crate::function_name::FunctionName;
use crate::msvc::codes::{Modifier, TopLevel};
use crate::msvc::flags::{
    UNDNAME_NAME_ONLY, UNDNAME_NO_ACCESS_SPECIFIERS, UNDNAME_NO_ARGUMENTS, UNDNAME_NO_MEMBER_TYPE,
};
use crate::msvc::grammar::{Env, Step};
use crate::msvc::grammar;
use crate::msvc::lexer::Datatype;
use crate::msvc::parser::{DataParts, MemberFunctionModifier, MsvcParser};
use crate::msvc::parser;
use crate::msvc::state::RefArray;
use crate::text::{is_blank, or_empty};
use crate::text;

verus! {

impl<'a> MsvcParser<'a> {
    /// Parses one symbol from the top, with an empty stack.
    pub fn parse_top_level_frame(
        &mut self,
        reject_no_arguments: bool,
        entry: TopLevel,
    ) -> (r: Result<FunctionName, ParseFailure>)
        ensures
            r matches Ok(name) ==> parser::paid_for(name@.full, *final(self)),
            parser::kept(*old(self), *final(self)),
            parser::balanced(*old(self), *final(self)),
            forall|env: Env|
                old(self).fits(env) && #[trigger] final(self).budget.agrees(env.grants) ==> old(
                    self,
                ).budget.agrees(env.grants) && (Step {
                    out: parser::viewed(r),
                    st: final(self)@,
                }) == grammar::top_level(
                    env,
                    grammar::rules(env, old(self).depth),
                    old(self)@,
                    reject_no_arguments,
                    entry,
                ),
        decreases grammar::room(old(self).depth), 12nat, 0nat, 0nat,
    {
        let offset = self.cursor.position();
        if reject_no_arguments && self.flags & UNDNAME_NO_ARGUMENTS != 0 {
            return Err(ParseFailure::UnsupportedNoArguments { offset });
        }
        if self.stack.logical_num() != 0 {
            return Err(ParseFailure::NonEmptyTopLevelStack { num: self.stack.logical_num() });
        }
        let checkpoint = self.stack.logical_num();
        let parsed = match entry {
            TopLevel::Symbol => self.parse_symbol_inner(),
            TopLevel::OrdinaryData => self.parse_ordinary_data_inner(),
            TopLevel::OrdinaryMethod => self.parse_ordinary_method_inner(),
            TopLevel::OperatorMethod => self.parse_operator_method_inner(),
        };
        match self.stack.restore_num(checkpoint) {
            Ok(_) => parsed,
            Err(restore_error) => Err(restore_error),
        }
    }

    /// Parses a whole symbol.
    pub fn parse_symbol(&mut self) -> (r: Result<FunctionName, ParseFailure>)
        ensures
            r matches Ok(name) ==> parser::paid_for(name@.full, *final(self)),
            parser::kept(*old(self), *final(self)),
            parser::balanced(*old(self), *final(self)),
            forall|env: Env|
                old(self).fits(env) && #[trigger] final(self).budget.agrees(env.grants) ==> old(
                    self,
                ).budget.agrees(env.grants) && (Step {
                    out: parser::viewed(r),
                    st: final(self)@,
                }) == grammar::symbol(
                    env,
                    grammar::rules(env, old(self).depth),
                    old(self)@,
                ),
        decreases grammar::room(old(self).depth), 13nat, 0nat, 0nat,
    {
        proof {
            reveal(grammar::symbol);
        }
        self.parse_top_level_frame(true, TopLevel::Symbol)
    }

    /// Parses a variable with an ordinary name.
    pub fn parse_ordinary_data(&mut self) -> (r: Result<FunctionName, ParseFailure>)
        ensures
            r matches Ok(name) ==> parser::paid_for(name@.full, *final(self)),
            parser::kept(*old(self), *final(self)),
            parser::balanced(*old(self), *final(self)),
            forall|env: Env|
                old(self).fits(env) && #[trigger] final(self).budget.agrees(env.grants) ==> old(
                    self,
                ).budget.agrees(env.grants) && (Step {
                    out: parser::viewed(r),
                    st: final(self)@,
                }) == grammar::top_level(
                    env,
                    grammar::rules(env, old(self).depth),
                    old(self)@,
                    false,
                    TopLevel::OrdinaryData,
                ),
    {
        self.parse_top_level_frame(false, TopLevel::OrdinaryData)
    }

    /// Parses a function with an ordinary name.
    pub fn parse_ordinary_method(&mut self) -> (r: Result<FunctionName, ParseFailure>)
        ensures
            r matches Ok(name) ==> parser::paid_for(name@.full, *final(self)),
            parser::kept(*old(self), *final(self)),
            parser::balanced(*old(self), *final(self)),
            forall|env: Env|
                old(self).fits(env) && #[trigger] final(self).budget.agrees(env.grants) ==> old(
                    self,
                ).budget.agrees(env.grants) && (Step {
                    out: parser::viewed(r),
                    st: final(self)@,
                }) == grammar::top_level(
                    env,
                    grammar::rules(env, old(self).depth),
                    old(self)@,
                    true,
                    TopLevel::OrdinaryMethod,
                ),
    {
        self.parse_top_level_frame(true, TopLevel::OrdinaryMethod)
    }

    /// Parses a symbol that names an operator.
    pub fn parse_operator_method(&mut self) -> (r: Result<FunctionName, ParseFailure>)
        ensures
            r matches Ok(name) ==> parser::paid_for(name@.full, *final(self)),
            parser::kept(*old(self), *final(self)),
            parser::balanced(*old(self), *final(self)),
            forall|env: Env|
                old(self).fits(env) && #[trigger] final(self).budget.agrees(env.grants) ==> old(
                    self,
                ).budget.agrees(env.grants) && (Step {
                    out: parser::viewed(r),
                    st: final(self)@,
                }) == grammar::top_level(
                    env,
                    grammar::rules(env, old(self).depth),
                    old(self)@,
                    true,
                    TopLevel::OperatorMethod,
                ),
    {
        self.parse_top_level_frame(true, TopLevel::OperatorMethod)
    }

    /// Pairs a rendered name with the position of its selector.
    pub fn finish_name(&mut self, full: String) -> (r: Result<FunctionName, ParseFailure>)
        ensures
            r matches Ok(name) ==> name@.full == full@,
            parser::kept(*old(self), *final(self)),
            parser::anchored(*old(self), *final(self)),
            parser::balanced(*old(self), *final(self)),
            forall|env: Env|
                old(self).fits(env) && #[trigger] final(self).budget.agrees(env.grants) ==> old(
                    self,
                ).budget.agrees(env.grants) && (Step {
                    out: parser::viewed(r),
                    st: final(self)@,
                }) == grammar::named(old(self)@, full@),
    {
        match FunctionName::new(full, self.name_pos) {
            Ok(name) => Ok(name),
            Err(error) => Err(ParseFailure::FunctionNameValidation(error)),
        }
    }

    /// Parses a symbol, by what follows its `?`.
    pub fn parse_symbol_inner(&mut self) -> (r: Result<FunctionName, ParseFailure>)
        ensures
            r matches Ok(name) ==> parser::paid_for(name@.full, *final(self)),
            parser::kept(*old(self), *final(self)),
            forall|env: Env|
                old(self).fits(env) && #[trigger] final(self).budget.agrees(env.grants) ==> old(
                    self,
                ).budget.agrees(env.grants) && (Step {
                    out: parser::viewed(r),
                    st: final(self)@,
                }) == grammar::symbol_inner(
                    env,
                    grammar::rules(env, old(self).depth),
                    old(self)@,
                ),
        decreases grammar::room(old(self).depth), 11nat, 0nat, 0nat,
    {
        proof {
            reveal(grammar::symbol_inner);
        }
        let prefix_offset = self.cursor.position();
        if !self.cursor.reads(0, '?') {
            return Err(
                ParseFailure::InvalidMsvcPrefix {
                    offset: prefix_offset,
                    found: self.cursor.peek(0),
                },
            );
        }
        if self.cursor.reads(1, '$') {
            self.cursor.advance(2)?;
            let name = self.parse_template_name()?;
            return self.finish_name(name);
        }
        if self.cursor.reads(1, '?') {
            if !self.cursor.reads(2, '$') || self.cursor.reads(3, '?') {
                return self.parse_operator_method_inner();
            }
            self.cursor.advance(1)?;
            self.collect_function_template_name()?;
        } else {
            self.collect_ordinary_symbol_name()?;
        }
        let offset = self.cursor.position();
        match self.cursor.peek(0) {
            Some(found) => match found as char {
                '0'..='9' => self.parse_data_signature(),
                'A'..='Z' => self.parse_method_signature(false, false),
                _ => {
                    if found == '$' as u8 && self.is_supported_thunk_signature() {
                        self.parse_method_signature(false, false)
                    } else {
                        Err(ParseFailure::UnsupportedMethodEncoding { offset, found })
                    }
                },
            },
            None => Err(ParseFailure::UnexpectedEnd { offset }),
        }
    }

    /// Reports whether the byte after the next one is the code of a thunk.
    pub fn is_supported_thunk_signature(&self) -> (yes: bool)
        ensures
            forall|env: Env|
                self.fits(env) ==> yes == #[trigger] grammar::thunk_follows(env, self@.pos()),
    {
        match self.cursor.peek(1) {
            Some(code) => match code as char {
                'B' | 'R' | '0'..='5' => true,
                _ => false,
            },
            None => false,
        }
    }

    /// Parses a variable with an ordinary name.
    pub fn parse_ordinary_data_inner(&mut self) -> (r: Result<FunctionName, ParseFailure>)
        ensures
            r matches Ok(name) ==> parser::paid_for(name@.full, *final(self)),
            parser::kept(*old(self), *final(self)),
            forall|env: Env|
                old(self).fits(env) && #[trigger] final(self).budget.agrees(env.grants) ==> old(
                    self,
                ).budget.agrees(env.grants) && (Step {
                    out: parser::viewed(r),
                    st: final(self)@,
                }) == grammar::ordinary_data(
                    env,
                    grammar::rules(env, old(self).depth),
                    old(self)@,
                ),
        decreases grammar::room(old(self).depth), 11nat, 0nat, 0nat,
    {
        self.collect_ordinary_symbol_name()?;
        self.parse_data_signature()
    }

    /// Parses a function with an ordinary name.
    pub fn parse_ordinary_method_inner(&mut self) -> (r: Result<FunctionName, ParseFailure>)
        ensures
            r matches Ok(name) ==> parser::paid_for(name@.full, *final(self)),
            parser::kept(*old(self), *final(self)),
            forall|env: Env|
                old(self).fits(env) && #[trigger] final(self).budget.agrees(env.grants) ==> old(
                    self,
                ).budget.agrees(env.grants) && (Step {
                    out: parser::viewed(r),
                    st: final(self)@,
                }) == grammar::ordinary_method(
                    env,
                    grammar::rules(env, old(self).depth),
                    old(self)@,
                ),
        decreases grammar::room(old(self).depth), 11nat, 0nat, 0nat,
    {
        self.collect_ordinary_symbol_name()?;
        self.parse_method_signature(false, false)
    }

    /// Reads the name of a function template instance.
    pub fn collect_function_template_name(&mut self) -> (r: Result<(), ParseFailure>)
        ensures
            parser::kept(*old(self), *final(self)),
            forall|env: Env|
                old(self).fits(env) && #[trigger] final(self).budget.agrees(env.grants) ==> old(
                    self,
                ).budget.agrees(env.grants) && (Step {
                    out: r,
                    st: final(self)@,
                }) == grammar::function_template_name(
                    env,
                    grammar::rules(env, old(self).depth),
                    old(self)@,
                ),
        decreases grammar::room(old(self).depth), 8nat, 0nat, 0nat,
    {
        proof {
            reveal(grammar::function_template_name);
        }
        self.collect_class_components(0)?;
        self.names.increment_start()
    }

    /// Reads the components of an ordinary top-level name.
    pub fn collect_ordinary_symbol_name(&mut self) -> (r: Result<(), ParseFailure>)
        ensures
            parser::kept(*old(self), *final(self)),
            parser::anchored(*old(self), *final(self)),
            forall|env: Env|
                old(self).fits(env) && #[trigger] final(self).budget.agrees(env.grants) ==> old(
                    self,
                ).budget.agrees(env.grants) && (Step {
                    out: r,
                    st: final(self)@,
                }) == grammar::ordinary_name(
                    env,
                    grammar::rules(env, old(self).depth),
                    old(self)@,
                ),
        decreases grammar::room(old(self).depth), 8nat, 0nat, 0nat,
    {
        proof {
            reveal(grammar::ordinary_name);
        }
        let prefix_offset = self.cursor.position();
        if !self.cursor.reads(0, '?') {
            return Err(
                ParseFailure::InvalidMsvcPrefix {
                    offset: prefix_offset,
                    found: self.cursor.peek(0),
                },
            );
        }
        self.cursor.advance(1)?;
        if let Some(found) = self.cursor.peek(0) {
            if found == '?' as u8 || found == '$' as u8 {
                return Err(
                    ParseFailure::UnsupportedTopLevelName {
                        offset: self.cursor.position(),
                        found,
                    },
                );
            }
        }
        self.collect_class_components(0)
    }

    /// Parses a variable, from its code on.
    pub fn parse_data_signature(&mut self) -> (r: Result<FunctionName, ParseFailure>)
        ensures
            r matches Ok(name) ==> parser::paid_for(name@.full, *final(self)),
            parser::kept(*old(self), *final(self)),
            parser::anchored(*old(self), *final(self)),
            parser::balanced(*old(self), *final(self)),
            forall|env: Env|
                old(self).fits(env) && #[trigger] final(self).budget.agrees(env.grants) ==> old(
                    self,
                ).budget.agrees(env.grants) && (Step {
                    out: parser::viewed(r),
                    st: final(self)@,
                }) == grammar::data_signature(
                    env,
                    grammar::rules(env, old(self).depth),
                    old(self)@,
                ),
        decreases grammar::room(old(self).depth), 10nat, 0nat, 0nat,
    {
        proof {
            reveal(grammar::data_signature);
        }
        let code_offset = self.cursor.position();
        let code = match self.cursor.peek(0) {
            Some(code) => code,
            None => return Err(ParseFailure::UnexpectedEnd { offset: code_offset }),
        };
        if code < '0' as u8 || code > '9' as u8 {
            return Err(
                ParseFailure::UnsupportedMethodEncoding { offset: code_offset, found: code },
            );
        }
        let name = self.read_class_name(0)?;
        self.cursor.advance(1)?;
        let parts = self.parse_data_parts(code)?;
        let rendered = self.render_data(code, name, parts)?;
        self.finish_name(rendered)
    }

    /// Reads what follows the code of a variable.
    pub fn parse_data_parts(&mut self, code: u8) -> (r: Result<DataParts, ParseFailure>)
        ensures
            parser::kept(*old(self), *final(self)),
            parser::anchored(*old(self), *final(self)),
            parser::balanced(*old(self), *final(self)),
            forall|env: Env|
                old(self).fits(env) && #[trigger] final(self).budget.agrees(env.grants) ==> old(
                    self,
                ).budget.agrees(env.grants) && (Step {
                    out: parser::viewed(r),
                    st: final(self)@,
                }) == grammar::data_parts(
                    env,
                    grammar::rules(env, old(self).depth),
                    old(self)@,
                    code as char,
                ),
        decreases grammar::room(old(self).depth), 9nat, 0nat, 0nat,
    {
        proof {
            reveal(grammar::data_parts);
            reveal_with_fuel(text::joined, 4);
        }
        match code as char {
            '0'..='5' => {
                let (datatype, parsed_modifier) = self.parse_typed_data()?;
                let modifier = self.join_modifier(parsed_modifier)?;
                Ok(DataParts { datatype, modifier })
            },
            '6' | '7' => {
                let parsed_modifier = self.read_modifier()?;
                let modifier = match parsed_modifier.qualifier {
                    Some(qualifier) => Some(MemberFunctionModifier::Static(qualifier)),
                    None => None,
                };
                let right = if self.cursor.reads(0, '@') {
                    None
                } else {
                    let class = self.parse_class_name()?;
                    Some(self.emit(&["{for `", class.as_str(), "'}"])?)
                };
                Ok(DataParts { datatype: Datatype { left: String::new(), right }, modifier })
            },
            _ => Ok(
                DataParts { datatype: Datatype { left: String::new(), right: None }, modifier: None },
            ),
        }
    }

    /// Reads a datatype and its qualifiers. The stack is left as it was found.
    pub fn parse_typed_data(&mut self) -> (r: Result<(Datatype, Modifier), ParseFailure>)
        ensures
            parser::kept(*old(self), *final(self)),
            parser::anchored(*old(self), *final(self)),
            parser::balanced(*old(self), *final(self)),
            forall|env: Env|
                old(self).fits(env) && #[trigger] final(self).budget.agrees(env.grants) ==> old(
                    self,
                ).budget.agrees(env.grants) && (Step {
                    out: match r {
                        Ok((datatype, modifier)) => Ok((datatype@, modifier)),
                        Err(error) => Err(error),
                    },
                    st: final(self)@,
                }) == grammar::typed_data(
                    env,
                    grammar::rules(env, old(self).depth),
                    old(self)@,
                ),
        decreases grammar::room(old(self).depth), 8nat, 0nat, 0nat,
    {
        proof {
            reveal(grammar::typed_data);
        }
        let checkpoint = self.stack.logical_num();
        let mut parameter_types = RefArray::new();
        let parsed = match self.parse_datatype(Some(&mut parameter_types), false) {
            Ok(datatype) => match self.read_modifier() {
                Ok(modifier) => Ok((datatype, modifier)),
                Err(error) => Err(error),
            },
            Err(error) => Err(error),
        };
        match self.stack.restore_num(checkpoint) {
            Ok(_) => parsed,
            Err(restore_error) => Err(restore_error),
        }
    }

    /// Renders a variable.
    pub fn render_data(
        &mut self,
        code: u8,
        name: String,
        parts: DataParts,
    ) -> (r: Result<String, ParseFailure>)
        ensures
            r matches Ok(rendered) ==> parser::paid_for(rendered@, *final(self)),
            parser::kept(*old(self), *final(self)),
            parser::anchored(*old(self), *final(self)),
            parser::balanced(*old(self), *final(self)),
            forall|env: Env|
                old(self).fits(env) && #[trigger] final(self).budget.agrees(env.grants) ==> old(
                    self,
                ).budget.agrees(env.grants) && (Step {
                    out: text::text_result(r),
                    st: final(self)@,
                }) == old(self)@.emit(
                    env,
                    grammar::data_text(env, code as char, name@, parts@),
                ),
    {
        proof {
            reveal_with_fuel(text::joined, 9);
            reveal_strlit("");
            assert(""@ =~= Seq::<char>::empty());
        }
        let access = if self.flags & UNDNAME_NO_ACCESS_SPECIFIERS != 0 {
            ""
        } else {
            match code as char {
                '0' => "private: ",
                '1' => "protected: ",
                '2' => "public: ",
                _ => "",
            }
        };
        let is_static = match code as char {
            '0'..='2' => true,
            _ => false,
        };
        let member_type = if self.flags & UNDNAME_NO_MEMBER_TYPE == 0 && is_static {
            "static "
        } else {
            ""
        };
        let name_only = self.flags & UNDNAME_NAME_ONLY != 0;
        let left = if name_only {
            ""
        } else {
            parts.datatype.left.as_str()
        };
        let right = if name_only {
            ""
        } else {
            or_empty(&parts.datatype.right)
        };
        let modifier = if name_only {
            ""
        } else {
            match &parts.modifier {
                Some(modifier) => modifier.as_str(),
                None => "",
            }
        };
        let has_left = !is_blank(left);
        let has_modifier = !is_blank(modifier);
        self.emit(
            &[
                access,
                member_type,
                left,
                if has_modifier && has_left {
                    " "
                } else {
                    ""
                },
                modifier,
                if has_modifier || has_left {
                    " "
                } else {
                    ""
                },
                name.as_str(),
                right,
            ],
        )
    }
}

} // verus!
