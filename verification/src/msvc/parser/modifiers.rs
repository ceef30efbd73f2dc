//! Pointers, references, qualifiers and array dimensions.

use vstd::prelude::*;
use vstd::string::*;

use crate::error::ParseFailure;
use crate::limits::MAX_STANDALONE_ARRAY_DIMENSIONS;
use crate::msvc::flags::{UNDNAME_NO_LEADING_UNDERSCORES, UNDNAME_NO_MS_KEYWORDS};
use crate::msvc::grammar::{Env, Step, Typed, MAX_POINTED_DIMENSIONS};
use crate::msvc::grammar;
use crate::msvc::lexer::{allocate_concat, parse_array_dimension_count, parse_number, Datatype};
use crate::msvc::lexer;
use crate::msvc::parser::{strip_leading_blank, ModifiedPrefix, MsvcParser};
use crate::msvc::parser;
use crate::msvc::state::RefArray;
use crate::text::{ends_with_char, starts_with};
use crate::text;

verus! {

impl<'a> MsvcParser<'a> {
    /// Reads the dimensions of an array type, if it has any.
    pub fn parse_standalone_array_suffix(&mut self) -> (r: Result<Option<String>, ParseFailure>)
        ensures
            parser::kept(*old(self), *final(self)),
            parser::anchored(*old(self), *final(self)),
            parser::balanced(*old(self), *final(self)),
            forall|env: Env|
                old(self).fits(env) && #[trigger] final(self).budget.agrees(env.grants) ==> old(
                    self,
                ).budget.agrees(env.grants) && (Step {
                    out: text::optional_result(r),
                    st: final(self)@,
                }) == old(self)@.lift(grammar::array_suffix(env, old(self)@.tape)),
    {
        if !self.cursor.reads(0, 'Y') {
            return Ok(None);
        }
        self.cursor.advance(1)?;
        let count = self.read_dimension_count()?;
        if count > MAX_STANDALONE_ARRAY_DIMENSIONS {
            return Err(
                ParseFailure::ArrayDimensionLimitExceeded {
                    attempted: count,
                    limit: MAX_STANDALONE_ARRAY_DIMENSIONS,
                },
            );
        }
        if count == 0 {
            return Ok(None);
        }
        let suffix = self.read_dimensions(count, String::new())?;
        Ok(Some(suffix))
    }

    /// Reads the number of dimensions behind a `Y`.
    pub fn read_dimension_count(&mut self) -> (r: Result<usize, ParseFailure>)
        ensures
            parser::kept(*old(self), *final(self)),
            parser::anchored(*old(self), *final(self)),
            parser::balanced(*old(self), *final(self)),
            forall|env: Env|
                old(self).fits(env) && #[trigger] final(self).budget.agrees(env.grants) ==> old(
                    self,
                ).budget.agrees(env.grants) && (Step {
                    out: r,
                    st: final(self)@,
                }) == old(self)@.lift(grammar::dimension_number(env, old(self)@.tape)),
    {
        let count_offset = self.cursor.position();
        let rendered_count = self.read_number()?;
        parse_array_dimension_count(rendered_count.as_str(), count_offset)
    }

    /// Reads `count` dimensions and appends them to `suffix`.
    pub fn read_dimensions(
        &mut self,
        count: usize,
        suffix: String,
    ) -> (r: Result<String, ParseFailure>)
        ensures
            parser::kept(*old(self), *final(self)),
            parser::anchored(*old(self), *final(self)),
            parser::balanced(*old(self), *final(self)),
            forall|env: Env|
                old(self).fits(env) && #[trigger] final(self).budget.agrees(env.grants) ==> old(
                    self,
                ).budget.agrees(env.grants) && (Step {
                    out: text::text_result(r),
                    st: final(self)@,
                }) == old(self)@.lift(
                    grammar::dimensions(env, old(self)@.tape, count as nat, suffix@),
                ),
    {
        let mut longer = suffix;
        let mut left: usize = count;
        while left > 0
            invariant
                parser::kept(*old(self), *self),
                parser::anchored(*old(self), *self),
                self.names == old(self).names,
                self.stack == old(self).stack,
                self.name_pos == old(self).name_pos,
                forall|env: Env|
                    old(self).fits(env) && #[trigger] self.budget.agrees(env.grants) ==> old(
                        self,
                    ).budget.agrees(env.grants) && grammar::dimensions(
                        env,
                        old(self)@.tape,
                        count as nat,
                        suffix@,
                    ) == grammar::dimensions(env, self@.tape, left as nat, longer@),
            decreases left,
        {
            proof {
                reveal_with_fuel(text::joined, 5);
            }
            let dimension = parse_number(&mut self.cursor, &mut self.budget)?;
            longer = allocate_concat(
                &mut self.budget,
                &[longer.as_str(), "[", dimension.as_str(), "]"],
            )?;
            left = left - 1;
        }
        Ok(longer)
    }

    /// Reads a datatype behind a pointer, a reference or a qualifier. The stack is left
    /// as it was found.
    pub fn parse_modified_type(
        &mut self,
        mut parameter_types: Option<&mut RefArray>,
        modifier: u8,
        in_args: bool,
        record_outer_pmt: bool,
        final_suffix: Option<&'static str>,
    ) -> (r: Result<Datatype, ParseFailure>)
        ensures
            parser::kept(*old(self), *final(self)),
            parser::anchored(*old(self), *final(self)),
            parser::balanced(*old(self), *final(self)),
            forall|env: Env|
                old(self).fits(env) && #[trigger] final(self).budget.agrees(env.grants) ==> old(
                    self,
                ).budget.agrees(env.grants) && (Typed {
                    out: lexer::type_result(r),
                    st: final(self)@,
                    types: match parameter_types {
                        Some(types) => Some(final(types)@),
                        None => None,
                    },
                }) == grammar::modified(
                    env,
                    grammar::rules(env, old(self).depth),
                    old(self)@,
                    match parameter_types {
                        Some(types) => Some(types@),
                        None => None,
                    },
                    modifier,
                    in_args,
                    record_outer_pmt,
                    final_suffix,
                ),
        decreases grammar::room(old(self).depth), 8nat, 0nat, 0nat,
    {
        proof {
            reveal(grammar::modified);
        }
        let checkpoint = self.stack.logical_num();
        let result = match parameter_types {
            Some(ref mut types) => self.parse_modified_type_inner(Some(&mut **types), modifier, in_args),
            None => self.parse_modified_type_inner(None, modifier, in_args),
        };
        let result = match result {
            Ok(datatype) => self.finish_modified_type(
                datatype,
                parameter_types,
                in_args,
                record_outer_pmt,
                final_suffix,
            ),
            Err(error) => Err(error),
        };
        match self.stack.restore_num(checkpoint) {
            Ok(_) => result,
            Err(restore_error) => Err(restore_error),
        }
    }

    /// Appends the final suffix and learns the datatype, where that is asked for.
    pub fn finish_modified_type(
        &mut self,
        datatype: Datatype,
        parameter_types: Option<&mut RefArray>,
        in_args: bool,
        record_outer_pmt: bool,
        final_suffix: Option<&'static str>,
    ) -> (r: Result<Datatype, ParseFailure>)
        ensures
            parser::kept(*old(self), *final(self)),
            parser::anchored(*old(self), *final(self)),
            parser::balanced(*old(self), *final(self)),
            forall|env: Env|
                old(self).fits(env) && #[trigger] final(self).budget.agrees(env.grants) ==> old(
                    self,
                ).budget.agrees(env.grants) && (Typed {
                    out: lexer::type_result(r),
                    st: final(self)@,
                    types: match parameter_types {
                        Some(types) => Some(final(types)@),
                        None => None,
                    },
                }) == grammar::finished(
                    env,
                    old(self)@,
                    match parameter_types {
                        Some(types) => Some(types@),
                        None => None,
                    },
                    in_args,
                    record_outer_pmt,
                    final_suffix,
                    datatype@,
                ),
    {
        proof {
            reveal_with_fuel(text::joined, 3);
        }
        let datatype = match final_suffix {
            Some(final_suffix) => {
                let left = self.emit(&[datatype.left.as_str(), final_suffix])?;
                Datatype { left, right: datatype.right }
            },
            None => datatype,
        };
        if record_outer_pmt {
            self.record_outer_parameter_type(parameter_types, in_args, &datatype)?;
        }
        Ok(datatype)
    }

    /// Reads a modified datatype, without learning it.
    pub fn parse_modified_type_inner(
        &mut self,
        parameter_types: Option<&mut RefArray>,
        modifier: u8,
        in_args: bool,
    ) -> (r: Result<Datatype, ParseFailure>)
        ensures
            parser::kept(*old(self), *final(self)),
            parser::anchored(*old(self), *final(self)),
            parser::balanced(*old(self), *final(self)),
            forall|env: Env|
                old(self).fits(env) && #[trigger] final(self).budget.agrees(env.grants) ==> old(
                    self,
                ).budget.agrees(env.grants) && (Typed {
                    out: lexer::type_result(r),
                    st: final(self)@,
                    types: match parameter_types {
                        Some(types) => Some(final(types)@),
                        None => None,
                    },
                }) == grammar::modified_inner(
                    env,
                    grammar::rules(env, old(self).depth),
                    old(self)@,
                    match parameter_types {
                        Some(types) => Some(types@),
                        None => None,
                    },
                    modifier,
                    in_args,
                ),
        decreases grammar::room(old(self).depth), 7nat, 0nat, 0nat,
    {
        proof {
            reveal(grammar::modified_inner);
            reveal_with_fuel(text::joined, 5);
        }
        let prefix = self.parse_modified_prefix(modifier)?;
        let subtype = self.parse_datatype(parameter_types, false)?;
        let rendered = prefix.rendered.as_str();
        let left = match prefix.qualifier {
            Some(qualifier) => self.emit(&[subtype.left.as_str(), " ", qualifier, rendered])?,
            None => {
                let rendered = if !in_args && starts_with(rendered, " *") && ends_with_char(
                    subtype.left.as_str(),
                    '*',
                ) {
                    strip_leading_blank(rendered)
                } else {
                    rendered
                };
                self.emit(&[subtype.left.as_str(), rendered])?
            },
        };
        Ok(Datatype { left, right: subtype.right })
    }

    /// Reads everything that stands in front of a modified datatype.
    pub fn parse_modified_prefix(
        &mut self,
        modifier: u8,
    ) -> (r: Result<ModifiedPrefix, ParseFailure>)
        ensures
            parser::kept(*old(self), *final(self)),
            parser::anchored(*old(self), *final(self)),
            parser::balanced(*old(self), *final(self)),
            forall|env: Env|
                old(self).fits(env) && #[trigger] final(self).budget.agrees(env.grants) ==> old(
                    self,
                ).budget.agrees(env.grants) && (Step {
                    out: parser::viewed(r),
                    st: final(self)@,
                }) == grammar::modified_prefix(
                    env,
                    old(self)@,
                    modifier,
                ),
    {
        proof {
            reveal(grammar::modified_prefix);
        }
        let pointer_extensions = self.parse_pointer_extensions()?;
        let declarator = self.render_declarator(modifier, pointer_extensions)?;
        let rendered = self.parse_unaligned(declarator)?;
        let parsed_modifier = self.read_modifier()?;
        if self.cursor.reads(0, 'Y') {
            let rendered = self.parse_modified_array(rendered, parsed_modifier.qualifier)?;
            return Ok(ModifiedPrefix { rendered, qualifier: None });
        }
        Ok(ModifiedPrefix { rendered, qualifier: parsed_modifier.qualifier })
    }

    /// Reads the keywords that extend a pointer.
    pub fn parse_pointer_extensions(&mut self) -> (r: Result<String, ParseFailure>)
        ensures
            parser::kept(*old(self), *final(self)),
            parser::anchored(*old(self), *final(self)),
            parser::balanced(*old(self), *final(self)),
            forall|env: Env|
                old(self).fits(env) && #[trigger] final(self).budget.agrees(env.grants) ==> old(
                    self,
                ).budget.agrees(env.grants) && (Step {
                    out: text::text_result(r),
                    st: final(self)@,
                }) == old(self)@.lift(grammar::pointer_extensions(env, old(self)@.tape)),
    {
        proof {
            reveal_with_fuel(text::joined, 4);
        }
        let mut pointer_extensions = String::new();
        if self.cursor.reads(0, 'E') {
            self.cursor.advance(1)?;
            if self.flags & UNDNAME_NO_MS_KEYWORDS == 0 {
                let keyword = if self.flags & UNDNAME_NO_LEADING_UNDERSCORES != 0 {
                    "ptr64"
                } else {
                    "__ptr64"
                };
                pointer_extensions = self.emit(&[" ", keyword])?;
                assert(" "@ + keyword@ =~= " "@ + keyword@ + Seq::empty());
            }
        }
        if self.cursor.reads(0, 'I') {
            self.cursor.advance(1)?;
            if self.flags & UNDNAME_NO_MS_KEYWORDS == 0 {
                let keyword = if self.flags & UNDNAME_NO_LEADING_UNDERSCORES != 0 {
                    "restrict"
                } else {
                    "__restrict"
                };
                let ghost shorter = pointer_extensions@;
                pointer_extensions = self.emit(&[pointer_extensions.as_str(), " ", keyword])?;
                assert(shorter + " "@ + keyword@ =~= shorter + " "@ + keyword@ + Seq::empty());
            }
        }
        Ok(pointer_extensions)
    }

    /// Renders the declarator that a modifier code stands for.
    pub fn render_declarator(
        &mut self,
        modifier: u8,
        pointer_extensions: String,
    ) -> (r: Result<String, ParseFailure>)
        ensures
            parser::kept(*old(self), *final(self)),
            parser::anchored(*old(self), *final(self)),
            parser::balanced(*old(self), *final(self)),
            forall|env: Env|
                old(self).fits(env) && #[trigger] final(self).budget.agrees(env.grants) ==> old(
                    self,
                ).budget.agrees(env.grants) && (Step {
                    out: text::text_result(r),
                    st: final(self)@,
                }) == grammar::declarator(
                    env,
                    old(self)@,
                    modifier,
                    pointer_extensions@,
                ),
    {
        proof {
            reveal_with_fuel(text::joined, 4);
        }
        let offset = self.cursor.position();
        let extensions = pointer_extensions.as_str();
        match modifier as char {
            'A' => self.emit(&[" &", extensions]),
            'B' => self.emit(&[" &", extensions, " volatile"]),
            'P' => self.emit(&[" *", extensions]),
            'Q' => self.emit(&[" *", extensions, " const"]),
            'R' => self.emit(&[" *", extensions, " volatile"]),
            'S' => self.emit(&[" *", extensions, " const volatile"]),
            '?' => Ok(String::new()),
            _ => Err(
                ParseFailure::UnsupportedDatatypeForm {
                    offset,
                    found: modifier,
                    introducer: "modified type",
                },
            ),
        }
    }

    /// Reads an optional `F` and puts its keyword before `rendered`.
    pub fn parse_unaligned(&mut self, rendered: String) -> (r: Result<String, ParseFailure>)
        ensures
            parser::kept(*old(self), *final(self)),
            parser::anchored(*old(self), *final(self)),
            parser::balanced(*old(self), *final(self)),
            forall|env: Env|
                old(self).fits(env) && #[trigger] final(self).budget.agrees(env.grants) ==> old(
                    self,
                ).budget.agrees(env.grants) && (Step {
                    out: text::text_result(r),
                    st: final(self)@,
                }) == old(self)@.lift(
                    grammar::optional_keyword(
                        env,
                        old(self)@.tape,
                        'F',
                        "unaligned",
                        "__unaligned",
                        " "@,
                        rendered@,
                        rendered@,
                    ),
                ),
    {
        proof {
            reveal_with_fuel(text::joined, 4);
        }
        if self.cursor.reads(0, 'F') {
            self.cursor.advance(1)?;
            if self.flags & UNDNAME_NO_MS_KEYWORDS == 0 {
                let keyword = if self.flags & UNDNAME_NO_LEADING_UNDERSCORES != 0 {
                    "unaligned"
                } else {
                    "__unaligned"
                };
                return self.emit(&[" ", keyword, rendered.as_str()]);
            }
        }
        Ok(rendered)
    }

    /// Reads the dimensions of an array behind a pointer or a reference.
    pub fn parse_modified_array(
        &mut self,
        rendered_modifier: String,
        qualifier: Option<&'static str>,
    ) -> (r: Result<String, ParseFailure>)
        ensures
            parser::kept(*old(self), *final(self)),
            parser::anchored(*old(self), *final(self)),
            parser::balanced(*old(self), *final(self)),
            forall|env: Env|
                old(self).fits(env) && #[trigger] final(self).budget.agrees(env.grants) ==> old(
                    self,
                ).budget.agrees(env.grants) && (Step {
                    out: text::text_result(r),
                    st: final(self)@,
                }) == old(self)@.lift(
                    grammar::pointed_array(env, old(self)@.tape, rendered_modifier@, qualifier),
                ),
    {
        proof {
            reveal_with_fuel(text::joined, 5);
        }
        self.cursor.advance(1)?;
        let counted = self.read_dimension_count()?;
        let count = if counted > MAX_POINTED_DIMENSIONS {
            MAX_POINTED_DIMENSIONS
        } else {
            counted
        };
        let suffix = match qualifier {
            Some(array_qualifier) => self.emit(
                &[" (", array_qualifier, rendered_modifier.as_str(), ")"],
            )?,
            None => self.emit(&[" (", strip_leading_blank(rendered_modifier.as_str()), ")"])?,
        };
        self.read_dimensions(count, suffix)
    }
}

} // verus!
