//! Datatypes and argument lists.

use vstd::prelude::*;
use vstd::string::*;

use crate::error::ParseFailure;
use crate::limits::{MAX_ARGUMENTS, MAX_MSVC_NESTING_DEPTH};
use crate::msvc::flags::UNDNAME_NO_COMPLEX_TYPE;
use crate::msvc::grammar::{Env, Step, TypeView, Typed};
use crate::msvc::grammar;
use crate::msvc::lexer::{render_argument_list, Datatype};
use crate::msvc::lexer;
use crate::msvc::parser::MsvcParser;
use crate::msvc::parser;
use crate::msvc::state::RefArray;
use crate::text::{literal_or_empty, or_empty, same_text};
use crate::text;

verus! {

impl<'a> MsvcParser<'a> {
    /// Reads a datatype, one level of nesting deeper.
    pub fn parse_datatype(
        &mut self,
        parameter_types: Option<&mut RefArray>,
        in_args: bool,
    ) -> (r: Result<Datatype, ParseFailure>)
        ensures
            parser::kept(*old(self), *final(self)),
            parser::anchored(*old(self), *final(self)),
            parser::balanced(*old(self), *final(self)),
            forall|env: Env|
                old(self).fits(env) && #[trigger] final(self).budget.agrees(env.grants) ==> old(
                    self,
                ).budget.agrees(env.grants) && (Typed {
                    out: lexer::type_result(r),
                    st: final(self)@,
                    types: match parameter_types {
                        Some(types) => Some(final(types)@),
                        None => None,
                    },
                }) == grammar::datatype(
                    grammar::rules(env, old(self).depth),
                    old(self)@,
                    match parameter_types {
                        Some(types) => Some(types@),
                        None => None,
                    },
                    in_args,
                ),
        decreases grammar::room(old(self).depth), 0nat, 0nat, 0nat,
    {
        proof {
            reveal(grammar::rules);
        }
        let attempted = match self.depth.checked_add(1) {
            Some(attempted) => attempted,
            None => return Err(
                ParseFailure::NestingLimitExceeded {
                    attempted: usize::MAX,
                    limit: MAX_MSVC_NESTING_DEPTH,
                },
            ),
        };
        if attempted > MAX_MSVC_NESTING_DEPTH {
            return Err(
                ParseFailure::NestingLimitExceeded { attempted, limit: MAX_MSVC_NESTING_DEPTH },
            );
        }
        let previous_depth = self.depth;
        self.depth = attempted;
        let result = self.parse_datatype_inner(parameter_types, in_args);
        self.depth = previous_depth;
        result
    }

    /// Reads an argument list and renders it between `open` and `close`. A list of
    /// parameters ends with a `Z` of its own.
    pub fn parse_arguments(
        &mut self,
        parameter_types: Option<&mut RefArray>,
        z_terminated: bool,
        open: u8,
        close: u8,
    ) -> (r: Result<String, ParseFailure>)
        ensures
            r matches Ok(rendered) ==> parser::paid_for(rendered@, *final(self)),
            parser::kept(*old(self), *final(self)),
            parser::anchored(*old(self), *final(self)),
            parser::balanced(*old(self), *final(self)),
            forall|env: Env|
                old(self).fits(env) && #[trigger] final(self).budget.agrees(env.grants) ==> old(
                    self,
                ).budget.agrees(env.grants) && (Typed {
                    out: text::text_result(r),
                    st: final(self)@,
                    types: match parameter_types {
                        Some(types) => Some(final(types)@),
                        None => None,
                    },
                }) == grammar::arguments(
                    env,
                    grammar::rules(env, old(self).depth),
                    old(self)@,
                    match parameter_types {
                        Some(types) => Some(types@),
                        None => None,
                    },
                    z_terminated,
                    open,
                    close,
                ),
        decreases grammar::room(old(self).depth), 1nat, 0nat, 0nat,
    {
        if open >= 128 || close >= 128 {
            return Err(ParseFailure::InvalidArgumentDelimiter { open, close });
        }
        let mut arguments: Vec<String> = Vec::new();
        proof {
            assert(text::owned_texts(arguments@) =~= Seq::empty());
        }
        let mut types = parameter_types;
        loop
            invariant
                parser::kept(*old(self), *self),
                parser::anchored(*old(self), *self),
                parser::balanced(*old(self), *self),
                arguments@.len() <= MAX_ARGUMENTS,
                open < 128,
                close < 128,
                match (parameter_types, types) {
                    (Some(before), Some(now)) => *final(before) == *final(now),
                    (None, None) => true,
                    _ => false,
                },
                forall|env: Env|
                    old(self).fits(env) && #[trigger] self.budget.agrees(env.grants) ==> old(
                        self,
                    ).budget.agrees(env.grants) && grammar::argument_list(
                        env,
                        grammar::rules(env, old(self).depth),
                        old(self)@,
                        match parameter_types {
                            Some(types) => Some(types@),
                            None => None,
                        },
                        Seq::empty(),
                        z_terminated,
                        open,
                        close,
                    ) == grammar::argument_list(
                        env,
                        grammar::rules(env, self.depth),
                        self@,
                        match types {
                            Some(types) => Some(types@),
                            None => None,
                        },
                        text::owned_texts(arguments@),
                        z_terminated,
                        open,
                        close,
                    ),
            decreases MAX_ARGUMENTS - arguments@.len(), self.cursor.input().len() - self.cursor.pos(),
        {
            proof {
                reveal(grammar::argument_list);
            }
            match self.cursor.peek(0) {
                None => return self.close_arguments(&arguments, z_terminated, open, close),
                Some(_) => {},
            }
            if self.cursor.reads(0, '@') {
                self.cursor.advance(1)?;
                return self.close_arguments(&arguments, z_terminated, open, close);
            }
            if close == '>' as u8 && self.cursor.reads(0, '$') && self.cursor.reads(1, '$') && (
            self.cursor.reads(2, 'V') || self.cursor.reads(2, 'Z')) {
                self.cursor.advance(3)?;
                continue ;
            }
            if arguments.len() >= MAX_ARGUMENTS {
                return Err(
                    ParseFailure::ArgumentLimitExceeded {
                        attempted: arguments.len() + 1,
                        limit: MAX_ARGUMENTS,
                    },
                );
            }
            if !self.budget.reserve_items(&mut arguments, 1) {
                return Err(ParseFailure::ArgumentCollectionAllocationFailed { additional: 1 });
            }
            let datatype = match types {
                Some(ref mut types) => self.parse_datatype(Some(&mut **types), true)?,
                None => self.parse_datatype(None, true)?,
            };
            if z_terminated && same_text(datatype.left.as_str(), "void") {
                return self.close_arguments(&arguments, z_terminated, open, close);
            }
            let argument = self.render_argument(&datatype)?;
            let ghost shorter = arguments@;
            arguments.push(argument);
            assert(text::owned_texts(arguments@) =~= text::owned_texts(shorter).push(argument@));
            if same_text(datatype.left.as_str(), "...") {
                return self.close_arguments(&arguments, z_terminated, open, close);
            }
        }
    }

    /// Renders one argument.
    pub fn render_argument(&mut self, datatype: &Datatype) -> (r: Result<String, ParseFailure>)
        ensures
            parser::kept(*old(self), *final(self)),
            parser::anchored(*old(self), *final(self)),
            parser::balanced(*old(self), *final(self)),
            forall|env: Env|
                old(self).fits(env) && #[trigger] final(self).budget.agrees(env.grants) ==> old(
                    self,
                ).budget.agrees(env.grants) && (Step {
                    out: text::text_result(r),
                    st: final(self)@,
                }) == old(self)@.emit(env, datatype@.left + datatype@.right_text()),
    {
        proof {
            reveal_with_fuel(text::joined, 3);
        }
        self.emit(&[datatype.left.as_str(), or_empty(&datatype.right)])
    }

    /// Reads the end of an argument list and renders the list.
    pub fn close_arguments(
        &mut self,
        arguments: &Vec<String>,
        z_terminated: bool,
        open: u8,
        close: u8,
    ) -> (r: Result<String, ParseFailure>)
        ensures
            r matches Ok(rendered) ==> parser::paid_for(rendered@, *final(self)),
            parser::kept(*old(self), *final(self)),
            parser::anchored(*old(self), *final(self)),
            parser::balanced(*old(self), *final(self)),
            forall|env: Env|
                old(self).fits(env) && #[trigger] final(self).budget.agrees(env.grants) ==> old(
                    self,
                ).budget.agrees(env.grants) && (Step {
                    out: text::text_result(r),
                    st: final(self)@,
                }) == grammar::closed_arguments(
                    env,
                    old(self)@,
                    text::owned_texts(arguments@),
                    z_terminated,
                    open,
                    close,
                ),
    {
        let offset = self.cursor.position();
        if z_terminated {
            let found = self.cursor.next()?;
            if found != 'Z' as u8 {
                return Err(ParseFailure::InvalidArgumentListTerminator { offset, found });
            }
        }
        self.render_arguments(arguments.as_slice(), open, close)
    }

    /// Renders an argument list between `open` and `close`.
    pub fn render_arguments(
        &mut self,
        arguments: &[String],
        open: u8,
        close: u8,
    ) -> (r: Result<String, ParseFailure>)
        ensures
            r matches Ok(rendered) ==> parser::paid_for(rendered@, *final(self)),
            parser::kept(*old(self), *final(self)),
            parser::anchored(*old(self), *final(self)),
            parser::balanced(*old(self), *final(self)),
            forall|env: Env|
                old(self).fits(env) && #[trigger] final(self).budget.agrees(env.grants) ==> old(
                    self,
                ).budget.agrees(env.grants) && (Step {
                    out: text::text_result(r),
                    st: final(self)@,
                }) == old(self)@.emit(
                    env,
                    grammar::arguments_text(text::owned_texts(arguments@), open, close),
                ),
    {
        render_argument_list(arguments, open, close, &mut self.budget)
    }

    /// Learns `datatype` as a parameter type, in an argument list that learns them.
    pub fn record_outer_parameter_type(
        &mut self,
        parameter_types: Option<&mut RefArray>,
        in_args: bool,
        datatype: &Datatype,
    ) -> (r: Result<(), ParseFailure>)
        ensures
            parser::kept(*old(self), *final(self)),
            parser::anchored(*old(self), *final(self)),
            parser::balanced(*old(self), *final(self)),
            forall|env: Env|
                old(self).fits(env) && #[trigger] final(self).budget.agrees(env.grants) ==> old(
                    self,
                ).budget.agrees(env.grants) && (Typed {
                    out: match r {
                        Ok(_) => Ok(datatype@),
                        Err(error) => Err(error),
                    },
                    st: final(self)@,
                    types: match parameter_types {
                        Some(types) => Some(final(types)@),
                        None => None,
                    },
                }) == grammar::recorded(
                    env,
                    old(self)@,
                    match parameter_types {
                        Some(types) => Some(types@),
                        None => None,
                    },
                    in_args,
                    datatype@,
                ),
    {
        if in_args {
            if let Some(types) = parameter_types {
                types.push_pair(
                    datatype.left.as_str(),
                    or_empty(&datatype.right),
                    &mut self.budget,
                )?;
            }
        }
        Ok(())
    }

    /// Reads a datatype, at its depth.
    pub fn parse_datatype_inner(
        &mut self,
        parameter_types: Option<&mut RefArray>,
        in_args: bool,
    ) -> (r: Result<Datatype, ParseFailure>)
        ensures
            parser::kept(*old(self), *final(self)),
            parser::anchored(*old(self), *final(self)),
            parser::balanced(*old(self), *final(self)),
            forall|env: Env|
                old(self).fits(env) && #[trigger] final(self).budget.agrees(env.grants) ==> old(
                    self,
                ).budget.agrees(env.grants) && (Typed {
                    out: lexer::type_result(r),
                    st: final(self)@,
                    types: match parameter_types {
                        Some(types) => Some(final(types)@),
                        None => None,
                    },
                }) == grammar::datatype_inner(
                    env,
                    grammar::rules(env, old(self).depth),
                    old(self)@,
                    match parameter_types {
                        Some(types) => Some(types@),
                        None => None,
                    },
                    in_args,
                ),
        decreases grammar::room(old(self).depth), 11nat, 0nat, 0nat,
    {
        let nests = self.cursor.reads(0, '$') && (self.cursor.reads(1, '1') || (self.cursor.reads(
            1,
            '$',
        ) && (self.cursor.reads(2, 'A') || self.cursor.reads(2, 'B') || self.cursor.reads(2, 'C')
            || self.cursor.reads(2, 'Q'))));
        if nests {
            self.parse_dollar_datatype(parameter_types, in_args)
        } else {
            self.parse_coded_datatype(parameter_types, in_args)
        }
    }

    /// Reads a datatype behind `$` that nests a symbol or another datatype.
    fn parse_dollar_datatype(
        &mut self,
        parameter_types: Option<&mut RefArray>,
        in_args: bool,
    ) -> (r: Result<Datatype, ParseFailure>)
        requires
            grammar::nests_behind_dollar(old(self).cursor.input(), old(self).cursor.pos()),
        ensures
            parser::kept(*old(self), *final(self)),
            parser::anchored(*old(self), *final(self)),
            parser::balanced(*old(self), *final(self)),
            forall|env: Env|
                old(self).fits(env) && #[trigger] final(self).budget.agrees(env.grants) ==> old(
                    self,
                ).budget.agrees(env.grants) && (Typed {
                    out: lexer::type_result(r),
                    st: final(self)@,
                    types: match parameter_types {
                        Some(types) => Some(final(types)@),
                        None => None,
                    },
                }) == grammar::dollar_type(
                    env,
                    grammar::rules(env, old(self).depth),
                    old(self)@,
                    match parameter_types {
                        Some(types) => Some(types@),
                        None => None,
                    },
                    in_args,
                ),
        decreases grammar::room(old(self).depth), 10nat, 0nat, 0nat,
    {
        proof {
            reveal(grammar::dollar_type);
        }
        if self.cursor.reads(1, '1') {
            self.cursor.advance(2)?;
            return self.parse_recursive_symbol_type(parameter_types, in_args);
        }
        if self.cursor.reads(2, 'A') {
            self.cursor.advance(3)?;
            if self.cursor.reads(0, '6') {
                self.cursor.advance(1)?;
                return self.parse_standalone_function_type(parameter_types, in_args);
            }
            return Err(self.unsupported_form("$$A"));
        }
        if self.cursor.reads(2, 'B') {
            self.cursor.advance(3)?;
            return self.parse_recursive_array_type(parameter_types, in_args);
        }
        if self.cursor.reads(2, 'C') {
            self.cursor.advance(3)?;
            return self.parse_recursive_qualified_type(parameter_types, in_args);
        }
        self.cursor.advance(3)?;
        self.parse_modified_type(parameter_types, '?' as u8, in_args, true, Some(" &&"))
    }

    /// Reads a datatype, by its one-letter code.
    pub fn parse_coded_datatype(
        &mut self,
        parameter_types: Option<&mut RefArray>,
        in_args: bool,
    ) -> (r: Result<Datatype, ParseFailure>)
        ensures
            parser::kept(*old(self), *final(self)),
            parser::anchored(*old(self), *final(self)),
            parser::balanced(*old(self), *final(self)),
            forall|env: Env|
                old(self).fits(env) && #[trigger] final(self).budget.agrees(env.grants) ==> old(
                    self,
                ).budget.agrees(env.grants) && (Typed {
                    out: lexer::type_result(r),
                    st: final(self)@,
                    types: match parameter_types {
                        Some(types) => Some(final(types)@),
                        None => None,
                    },
                }) == grammar::coded_type(
                    env,
                    grammar::rules(env, old(self).depth),
                    old(self)@,
                    match parameter_types {
                        Some(types) => Some(types@),
                        None => None,
                    },
                    in_args,
                ),
        decreases grammar::room(old(self).depth), 10nat, 0nat, 0nat,
    {
        proof {
            reveal(grammar::coded_type);
        }
        let code = match self.cursor.peek(0) {
            Some(code) => code,
            None => return self.parse_plain_datatype(parameter_types, in_args),
        };
        match code as char {
            'A' | 'B' => {
                self.cursor.advance(1)?;
                self.parse_modified_type(parameter_types, code, in_args, true, None)
            },
            'P' | 'Q' => {
                self.cursor.advance(1)?;
                self.parse_pointer_type(parameter_types, code, in_args)
            },
            'R' | 'S' => {
                self.cursor.advance(1)?;
                let modifier = if in_args {
                    code
                } else {
                    'P' as u8
                };
                self.parse_modified_type(parameter_types, modifier, in_args, true, None)
            },
            '?' => {
                self.cursor.advance(1)?;
                if in_args {
                    self.parse_template_parameter(parameter_types)
                } else {
                    self.parse_modified_type(parameter_types, code, in_args, true, None)
                }
            },
            'W' => {
                self.cursor.advance(1)?;
                if !self.cursor.reads(0, '4') {
                    return Err(self.unsupported_form("W"));
                }
                self.cursor.advance(1)?;
                self.parse_named_datatype("enum ", parameter_types, in_args)
            },
            'T' => {
                self.cursor.advance(1)?;
                self.parse_named_datatype("union ", parameter_types, in_args)
            },
            'U' => {
                self.cursor.advance(1)?;
                self.parse_named_datatype("struct ", parameter_types, in_args)
            },
            'V' => {
                self.cursor.advance(1)?;
                self.parse_named_datatype("class ", parameter_types, in_args)
            },
            'Y' => {
                self.cursor.advance(1)?;
                self.parse_named_datatype("cointerface ", parameter_types, in_args)
            },
            _ => self.parse_plain_datatype(parameter_types, in_args),
        }
    }

    /// Why the form at this position is not supported.
    fn unsupported_form(&self, introducer: &'static str) -> (error: ParseFailure)
        ensures
            forall|env: Env|
                env.input == self.cursor.input() ==> (#[trigger] grammar::unsupported::<TypeView>(
                    env,
                    self@,
                    introducer,
                )) == self@.fail::<TypeView>(error),
    {
        let offset = self.cursor.position();
        match self.cursor.peek(0) {
            Some(found) => ParseFailure::UnsupportedDatatypeForm { offset, found, introducer },
            None => ParseFailure::UnexpectedEnd { offset },
        }
    }

    /// Reads a datatype that needs neither names nor nested types.
    pub fn parse_plain_datatype(
        &mut self,
        parameter_types: Option<&mut RefArray>,
        in_args: bool,
    ) -> (r: Result<Datatype, ParseFailure>)
        ensures
            parser::kept(*old(self), *final(self)),
            parser::anchored(*old(self), *final(self)),
            parser::balanced(*old(self), *final(self)),
            forall|env: Env|
                old(self).fits(env) && #[trigger] final(self).budget.agrees(env.grants) ==> old(
                    self,
                ).budget.agrees(env.grants) && (Typed {
                    out: lexer::type_result(r),
                    st: final(self)@,
                    types: match parameter_types {
                        Some(types) => Some(final(types)@),
                        None => None,
                    },
                }) == grammar::plain_type(
                    env,
                    old(self)@,
                    match parameter_types {
                        Some(types) => Some(types@),
                        None => None,
                    },
                    in_args,
                ),
    {
        lexer::parse_datatype(&mut self.cursor, parameter_types, in_args, &mut self.budget)
    }

    /// Reads a template parameter by number, from behind its `?`.
    pub fn parse_template_parameter(
        &mut self,
        parameter_types: Option<&mut RefArray>,
    ) -> (r: Result<Datatype, ParseFailure>)
        ensures
            parser::kept(*old(self), *final(self)),
            parser::anchored(*old(self), *final(self)),
            parser::balanced(*old(self), *final(self)),
            forall|env: Env|
                old(self).fits(env) && #[trigger] final(self).budget.agrees(env.grants) ==> old(
                    self,
                ).budget.agrees(env.grants) && (Typed {
                    out: lexer::type_result(r),
                    st: final(self)@,
                    types: match parameter_types {
                        Some(types) => Some(final(types)@),
                        None => None,
                    },
                }) == grammar::template_parameter(
                    env,
                    old(self)@,
                    match parameter_types {
                        Some(types) => Some(types@),
                        None => None,
                    },
                ),
    {
        proof {
            reveal_with_fuel(text::joined, 4);
        }
        let number = self.read_number()?;
        let left = self.emit(&["`template-parameter-", number.as_str(), "'"])?;
        let datatype = Datatype { left, right: None };
        self.record_outer_parameter_type(parameter_types, true, &datatype)?;
        Ok(datatype)
    }

    /// Reads a pointer, from behind its code.
    pub fn parse_pointer_type(
        &mut self,
        parameter_types: Option<&mut RefArray>,
        code: u8,
        in_args: bool,
    ) -> (r: Result<Datatype, ParseFailure>)
        ensures
            parser::kept(*old(self), *final(self)),
            parser::anchored(*old(self), *final(self)),
            parser::balanced(*old(self), *final(self)),
            forall|env: Env|
                old(self).fits(env) && #[trigger] final(self).budget.agrees(env.grants) ==> old(
                    self,
                ).budget.agrees(env.grants) && (Typed {
                    out: lexer::type_result(r),
                    st: final(self)@,
                    types: match parameter_types {
                        Some(types) => Some(final(types)@),
                        None => None,
                    },
                }) == grammar::pointer_type(
                    env,
                    grammar::rules(env, old(self).depth),
                    old(self)@,
                    match parameter_types {
                        Some(types) => Some(types@),
                        None => None,
                    },
                    code,
                    in_args,
                ),
        decreases grammar::room(old(self).depth), 9nat, 0nat, 0nat,
    {
        proof {
            reveal(grammar::pointer_type);
        }
        if let Some(found) = self.cursor.peek(0) {
            if found >= '0' as u8 && found <= '9' as u8 {
                let offset = self.cursor.position();
                self.cursor.advance(1)?;
                if found == '6' as u8 {
                    return self.parse_function_pointer_type(parameter_types, code, in_args);
                }
                if found == '8' as u8 && code == 'P' as u8 {
                    return self.parse_member_function_pointer_type(parameter_types, in_args);
                }
                return Err(
                    ParseFailure::UnsupportedDatatypeForm {
                        offset,
                        found,
                        introducer: if code == 'P' as u8 {
                            "P"
                        } else {
                            "Q"
                        },
                    },
                );
            }
        }
        let modifier = if code == 'Q' as u8 && !in_args {
            'P' as u8
        } else {
            code
        };
        self.parse_modified_type(parameter_types, modifier, in_args, true, None)
    }

    /// Reads the address of a symbol.
    pub fn parse_recursive_symbol_type(
        &mut self,
        parameter_types: Option<&mut RefArray>,
        in_args: bool,
    ) -> (r: Result<Datatype, ParseFailure>)
        ensures
            parser::kept(*old(self), *final(self)),
            parser::anchored(*old(self), *final(self)),
            parser::balanced(*old(self), *final(self)),
            forall|env: Env|
                old(self).fits(env) && #[trigger] final(self).budget.agrees(env.grants) ==> old(
                    self,
                ).budget.agrees(env.grants) && (Typed {
                    out: lexer::type_result(r),
                    st: final(self)@,
                    types: match parameter_types {
                        Some(types) => Some(final(types)@),
                        None => None,
                    },
                }) == grammar::symbol_type(
                    env,
                    grammar::rules(env, old(self).depth),
                    old(self)@,
                    match parameter_types {
                        Some(types) => Some(types@),
                        None => None,
                    },
                    in_args,
                ),
        decreases grammar::room(old(self).depth), 8nat, 0nat, 0nat,
    {
        proof {
            reveal(grammar::symbol_type);
            reveal_with_fuel(text::joined, 3);
        }
        let nested = self.parse_nested_symbol()?;
        let left = self.emit(&["&", nested.full_name()])?;
        let datatype = Datatype { left, right: None };
        self.record_outer_parameter_type(parameter_types, in_args, &datatype)?;
        Ok(datatype)
    }

    /// Reads a qualified datatype.
    pub fn parse_recursive_qualified_type(
        &mut self,
        mut parameter_types: Option<&mut RefArray>,
        in_args: bool,
    ) -> (r: Result<Datatype, ParseFailure>)
        ensures
            parser::kept(*old(self), *final(self)),
            parser::anchored(*old(self), *final(self)),
            parser::balanced(*old(self), *final(self)),
            forall|env: Env|
                old(self).fits(env) && #[trigger] final(self).budget.agrees(env.grants) ==> old(
                    self,
                ).budget.agrees(env.grants) && (Typed {
                    out: lexer::type_result(r),
                    st: final(self)@,
                    types: match parameter_types {
                        Some(types) => Some(final(types)@),
                        None => None,
                    },
                }) == grammar::qualified_type(
                    env,
                    grammar::rules(env, old(self).depth),
                    old(self)@,
                    match parameter_types {
                        Some(types) => Some(types@),
                        None => None,
                    },
                    in_args,
                ),
        decreases grammar::room(old(self).depth), 8nat, 0nat, 0nat,
    {
        proof {
            reveal(grammar::qualified_type);
            reveal_with_fuel(text::joined, 4);
        }
        let modifier = self.read_modifier()?;
        let subtype = match parameter_types {
            Some(ref mut types) => self.parse_datatype(Some(&mut **types), in_args)?,
            None => self.parse_datatype(None, in_args)?,
        };
        let left = self.emit(
            &[subtype.left.as_str(), " ", literal_or_empty(modifier.qualifier)],
        )?;
        let datatype = Datatype { left, right: subtype.right };
        self.record_outer_parameter_type(parameter_types, in_args, &datatype)?;
        Ok(datatype)
    }

    /// Reads an array type that is not behind a pointer.
    pub fn parse_recursive_array_type(
        &mut self,
        mut parameter_types: Option<&mut RefArray>,
        in_args: bool,
    ) -> (r: Result<Datatype, ParseFailure>)
        ensures
            parser::kept(*old(self), *final(self)),
            parser::anchored(*old(self), *final(self)),
            parser::balanced(*old(self), *final(self)),
            forall|env: Env|
                old(self).fits(env) && #[trigger] final(self).budget.agrees(env.grants) ==> old(
                    self,
                ).budget.agrees(env.grants) && (Typed {
                    out: lexer::type_result(r),
                    st: final(self)@,
                    types: match parameter_types {
                        Some(types) => Some(final(types)@),
                        None => None,
                    },
                }) == grammar::array_type(
                    env,
                    grammar::rules(env, old(self).depth),
                    old(self)@,
                    match parameter_types {
                        Some(types) => Some(types@),
                        None => None,
                    },
                    in_args,
                ),
        decreases grammar::room(old(self).depth), 8nat, 0nat, 0nat,
    {
        proof {
            reveal(grammar::array_type);
            reveal_with_fuel(text::joined, 4);
        }
        let suffix = self.parse_standalone_array_suffix()?;
        let subtype = match parameter_types {
            Some(ref mut types) => self.parse_datatype(Some(&mut **types), in_args)?,
            None => self.parse_datatype(None, in_args)?,
        };
        let left = match suffix {
            Some(suffix) => self.emit(&[subtype.left.as_str(), " ", suffix.as_str()])?,
            None => self.emit(&[subtype.left.as_str(), " "])?,
        };
        let datatype = Datatype { left, right: subtype.right };
        self.record_outer_parameter_type(parameter_types, in_args, &datatype)?;
        Ok(datatype)
    }

    /// Reads a datatype with a name of its own.
    pub fn parse_named_datatype(
        &mut self,
        prefix: &'static str,
        parameter_types: Option<&mut RefArray>,
        in_args: bool,
    ) -> (r: Result<Datatype, ParseFailure>)
        ensures
            parser::kept(*old(self), *final(self)),
            parser::anchored(*old(self), *final(self)),
            parser::balanced(*old(self), *final(self)),
            forall|env: Env|
                old(self).fits(env) && #[trigger] final(self).budget.agrees(env.grants) ==> old(
                    self,
                ).budget.agrees(env.grants) && (Typed {
                    out: lexer::type_result(r),
                    st: final(self)@,
                    types: match parameter_types {
                        Some(types) => Some(final(types)@),
                        None => None,
                    },
                }) == grammar::named_type(
                    env,
                    grammar::rules(env, old(self).depth),
                    old(self)@,
                    prefix,
                    match parameter_types {
                        Some(types) => Some(types@),
                        None => None,
                    },
                    in_args,
                ),
        decreases grammar::room(old(self).depth), 8nat, 0nat, 0nat,
    {
        proof {
            reveal(grammar::named_type);
            reveal_with_fuel(text::joined, 3);
        }
        let class_name = self.parse_class_name()?;
        let left = if self.flags & UNDNAME_NO_COMPLEX_TYPE != 0 {
            class_name
        } else {
            self.emit(&[prefix, class_name.as_str()])?
        };
        let datatype = Datatype { left, right: None };
        self.record_outer_parameter_type(parameter_types, in_args, &datatype)?;
        Ok(datatype)
    }
}

} // verus!
