//! Qualified names and template names.

use vstd::prelude::*;
use vstd::string::*;

use crate::error::ParseFailure;
use crate::function_name::FunctionName;
use crate::limits::MAX_MSVC_NESTING_DEPTH;
use crate::msvc::grammar::{Env, Step};
use crate::msvc::grammar;
use crate::msvc::lexer::checked_class_output_len;
use crate::msvc::parser::{MsvcParser, TemplateNameParts};
use crate::msvc::parser;
use crate::msvc::state::RefArray;
use crate::text::byte_len;
use crate::text;

verus! {

impl<'a> MsvcParser<'a> {
    /// Adds `component` to the qualified name, whose rendered width was `output_len`.
    pub fn add_component(
        &mut self,
        component: &str,
        output_len: usize,
        has_previous: bool,
    ) -> (r: Result<usize, ParseFailure>)
        ensures
            parser::kept(*old(self), *final(self)),
            parser::anchored(*old(self), *final(self)),
            forall|env: Env|
                old(self).fits(env) && #[trigger] final(self).budget.agrees(env.grants) ==> old(
                    self,
                ).budget.agrees(env.grants) && (Step {
                    out: r,
                    st: final(self)@,
                }) == grammar::add_component(
                    env,
                    old(self)@,
                    component@,
                    output_len,
                    has_previous,
                ),
    {
        let next_output_len = checked_class_output_len(
            output_len,
            byte_len(component),
            has_previous,
        )?;
        self.stack.push(component, &mut self.budget)?;
        Ok(next_output_len)
    }

    /// Reads a qualified name. The stack is left as it was found.
    pub fn parse_class_name(&mut self) -> (r: Result<String, ParseFailure>)
        ensures
            parser::kept(*old(self), *final(self)),
            parser::anchored(*old(self), *final(self)),
            parser::balanced(*old(self), *final(self)),
            forall|env: Env|
                old(self).fits(env) && #[trigger] final(self).budget.agrees(env.grants) ==> old(
                    self,
                ).budget.agrees(env.grants) && (Step {
                    out: text::text_result(r),
                    st: final(self)@,
                }) == grammar::class_name(
                    env,
                    grammar::rules(env, old(self).depth),
                    old(self)@,
                ),
        decreases grammar::room(old(self).depth), 7nat, 0nat, 0nat,
    {
        proof {
            reveal(grammar::class_name);
        }
        let checkpoint = self.stack.logical_num();
        let result = match self.collect_class_components(checkpoint) {
            Ok(_) => self.read_class_name(checkpoint),
            Err(error) => Err(error),
        };
        match self.stack.restore_num(checkpoint) {
            Ok(_) => result,
            Err(restore_error) => Err(restore_error),
        }
    }

    /// Reads the components of a qualified name onto the stack.
    pub fn collect_class_components(&mut self, checkpoint: usize) -> (r: Result<(), ParseFailure>)
        ensures
            parser::kept(*old(self), *final(self)),
            parser::anchored(*old(self), *final(self)),
            forall|env: Env|
                old(self).fits(env) && #[trigger] final(self).budget.agrees(env.grants) ==> old(
                    self,
                ).budget.agrees(env.grants) && (Step {
                    out: r,
                    st: final(self)@,
                }) == grammar::components(
                    env,
                    grammar::rules(env, old(self).depth),
                    old(self)@,
                    checkpoint,
                    0,
                ),
        decreases grammar::room(old(self).depth), 6nat, 0nat, 0nat,
    {
        let mut output_len: usize = 0;
        loop
            invariant
                parser::kept(*old(self), *self),
                parser::anchored(*old(self), *self),
                forall|env: Env|
                    old(self).fits(env) && #[trigger] self.budget.agrees(env.grants) ==> old(
                        self,
                    ).budget.agrees(env.grants) && grammar::components(
                        env,
                        grammar::rules(env, old(self).depth),
                        old(self)@,
                        checkpoint,
                        0,
                    ) == grammar::components(
                        env,
                        grammar::rules(env, self.depth),
                        self@,
                        checkpoint,
                        output_len,
                    ),
            decreases self.cursor.input().len() - self.cursor.pos(),
        {
            proof {
                reveal(grammar::components);
            }
            let has_previous = self.stack.logical_num() != checkpoint;
            let offset = self.cursor.position();
            let code = match self.cursor.peek(0) {
                Some(code) => code,
                None => return Err(ParseFailure::UnexpectedEnd { offset }),
            };
            if code == '@' as u8 {
                self.cursor.advance(1)?;
                if !has_previous {
                    return Err(ParseFailure::EmptyClass { offset });
                }
                return Ok(());
            }
            if code == '?' as u8 {
                self.cursor.advance(1)?;
                output_len = self.parse_question_class_component(output_len, has_previous)?;
            } else if code >= '0' as u8 && code <= '9' as u8 {
                self.cursor.advance(1)?;
                let referenced = self.names.reference((code - '0' as u8) as usize)?;
                let next_output_len = checked_class_output_len(
                    output_len,
                    byte_len(referenced),
                    has_previous,
                )?;
                self.stack.push(referenced, &mut self.budget)?;
                output_len = next_output_len;
            } else {
                let component = self.read_literal()?;
                output_len = self.add_component(component.as_str(), output_len, has_previous)?;
            }
        }
    }

    /// Reads a component that starts with `?`, from behind it.
    pub fn parse_question_class_component(
        &mut self,
        output_len: usize,
        has_previous: bool,
    ) -> (r: Result<usize, ParseFailure>)
        ensures
            parser::kept(*old(self), *final(self)),
            parser::anchored(*old(self), *final(self)),
            forall|env: Env|
                old(self).fits(env) && #[trigger] final(self).budget.agrees(env.grants) ==> old(
                    self,
                ).budget.agrees(env.grants) && (Step {
                    out: r,
                    st: final(self)@,
                }) == grammar::question_component(
                    env,
                    grammar::rules(env, old(self).depth),
                    old(self)@,
                    output_len,
                    has_previous,
                ),
        decreases grammar::room(old(self).depth), 5nat, 0nat, 0nat,
    {
        proof {
            reveal(grammar::question_component);
        }
        let offset = self.cursor.position();
        match self.cursor.peek(0) {
            Some(code) => match code as char {
                '$' => {
                    self.cursor.advance(1)?;
                    self.parse_template_class_component(output_len, has_previous)
                },
                '?' => self.parse_nested_symbol_class_component(output_len, has_previous),
                'A' => self.parse_anonymous_class_component(output_len, has_previous),
                _ => self.parse_numeric_class_component(output_len, has_previous),
            },
            None => Err(ParseFailure::UnexpectedEnd { offset }),
        }
    }

    /// Reads a symbol nested as a scope.
    pub fn parse_nested_symbol_class_component(
        &mut self,
        output_len: usize,
        has_previous: bool,
    ) -> (r: Result<usize, ParseFailure>)
        ensures
            parser::kept(*old(self), *final(self)),
            parser::anchored(*old(self), *final(self)),
            forall|env: Env|
                old(self).fits(env) && #[trigger] final(self).budget.agrees(env.grants) ==> old(
                    self,
                ).budget.agrees(env.grants) && (Step {
                    out: r,
                    st: final(self)@,
                }) == grammar::nested_component(
                    env,
                    grammar::rules(env, old(self).depth),
                    old(self)@,
                    output_len,
                    has_previous,
                ),
        decreases grammar::room(old(self).depth), 1nat, 0nat, 0nat,
    {
        proof {
            reveal(grammar::nested_component);
            reveal_with_fuel(text::joined, 4);
        }
        let nested = self.parse_nested_symbol()?;
        let component = self.emit(&["`", nested.full_name(), "'"])?;
        self.add_component(component.as_str(), output_len, has_previous)
    }

    /// Reads a symbol inside a symbol, with a stack of its own.
    pub fn parse_nested_symbol(&mut self) -> (r: Result<FunctionName, ParseFailure>)
        ensures
            r matches Ok(name) ==> parser::paid_for(name@.full, *final(self)),
            parser::kept(*old(self), *final(self)),
            parser::anchored(*old(self), *final(self)),
            parser::balanced(*old(self), *final(self)),
            parser::rescoped(*old(self), *final(self)),
            forall|env: Env|
                old(self).fits(env) && #[trigger] final(self).budget.agrees(env.grants) ==> old(
                    self,
                ).budget.agrees(env.grants) && (Step {
                    out: parser::viewed(r),
                    st: final(self)@,
                }) == grammar::nested_symbol(
                    grammar::rules(env, old(self).depth),
                    old(self)@,
                ),
        decreases grammar::room(old(self).depth), 0nat, 0nat, 0nat,
    {
        proof {
            reveal(grammar::rules);
        }
        let names_num = self.names.logical_num();
        let names_start = self.names.logical_start();
        let mut outer_stack = RefArray::new();
        core::mem::swap(&mut self.stack, &mut outer_stack);
        let parsed = match self.depth.checked_add(1) {
            Some(attempted) => {
                if attempted <= MAX_MSVC_NESTING_DEPTH {
                    let previous_depth = self.depth;
                    self.depth = attempted;
                    let parsed = self.parse_symbol();
                    self.depth = previous_depth;
                    parsed
                } else {
                    Err(
                        ParseFailure::NestingLimitExceeded {
                            attempted,
                            limit: MAX_MSVC_NESTING_DEPTH,
                        },
                    )
                }
            },
            None => Err(
                ParseFailure::NestingLimitExceeded {
                    attempted: usize::MAX,
                    limit: MAX_MSVC_NESTING_DEPTH,
                },
            ),
        };
        let names_num_result = self.names.restore_num(names_num);
        let names_start_result = self.names.set_start(names_start);
        core::mem::swap(&mut self.stack, &mut outer_stack);
        names_num_result?;
        names_start_result?;
        parsed
    }

    /// Reads an unnamed namespace.
    pub fn parse_anonymous_class_component(
        &mut self,
        output_len: usize,
        has_previous: bool,
    ) -> (r: Result<usize, ParseFailure>)
        ensures
            parser::kept(*old(self), *final(self)),
            parser::anchored(*old(self), *final(self)),
            forall|env: Env|
                old(self).fits(env) && #[trigger] final(self).budget.agrees(env.grants) ==> old(
                    self,
                ).budget.agrees(env.grants) && (Step {
                    out: r,
                    st: final(self)@,
                }) == grammar::anonymous_component(
                    env,
                    old(self)@,
                    output_len,
                    has_previous,
                ),
    {
        self.read_literal()?;
        self.names.replace_last_active("`anonymous namespace'", &mut self.budget)?;
        self.add_component("`anonymous namespace'", output_len, has_previous)
    }

    /// Reads a numbered scope.
    pub fn parse_numeric_class_component(
        &mut self,
        output_len: usize,
        has_previous: bool,
    ) -> (r: Result<usize, ParseFailure>)
        ensures
            parser::kept(*old(self), *final(self)),
            parser::anchored(*old(self), *final(self)),
            forall|env: Env|
                old(self).fits(env) && #[trigger] final(self).budget.agrees(env.grants) ==> old(
                    self,
                ).budget.agrees(env.grants) && (Step {
                    out: r,
                    st: final(self)@,
                }) == grammar::numeric_component(
                    env,
                    old(self)@,
                    output_len,
                    has_previous,
                ),
    {
        proof {
            reveal_with_fuel(text::joined, 4);
        }
        let number = self.read_number()?;
        let component = self.emit(&["`", number.as_str(), "'"])?;
        self.add_component(component.as_str(), output_len, has_previous)
    }

    /// Reads a template instance as a scope and learns it.
    pub fn parse_template_class_component(
        &mut self,
        output_len: usize,
        has_previous: bool,
    ) -> (r: Result<usize, ParseFailure>)
        ensures
            parser::kept(*old(self), *final(self)),
            parser::anchored(*old(self), *final(self)),
            forall|env: Env|
                old(self).fits(env) && #[trigger] final(self).budget.agrees(env.grants) ==> old(
                    self,
                ).budget.agrees(env.grants) && (Step {
                    out: r,
                    st: final(self)@,
                }) == grammar::template_component(
                    env,
                    grammar::rules(env, old(self).depth),
                    old(self)@,
                    output_len,
                    has_previous,
                ),
        decreases grammar::room(old(self).depth), 4nat, 0nat, 0nat,
    {
        proof {
            reveal(grammar::template_component);
        }
        let component = self.parse_template_name()?;
        let next_output_len = checked_class_output_len(
            output_len,
            byte_len(component.as_str()),
            has_previous,
        )?;
        self.names.push(component.as_str(), &mut self.budget)?;
        self.stack.push(component.as_str(), &mut self.budget)?;
        Ok(next_output_len)
    }

    /// Reads a template name. Whatever happens inside it, the tables are cut back to
    /// what they were before it.
    pub fn parse_template_name(&mut self) -> (r: Result<String, ParseFailure>)
        ensures
            r matches Ok(rendered) ==> parser::paid_for(rendered@, *final(self)),
            parser::kept(*old(self), *final(self)),
            parser::anchored(*old(self), *final(self)),
            parser::balanced(*old(self), *final(self)),
            parser::rescoped(*old(self), *final(self)),
            forall|env: Env|
                old(self).fits(env) && #[trigger] final(self).budget.agrees(env.grants) ==> old(
                    self,
                ).budget.agrees(env.grants) && (Step {
                    out: text::text_result(r),
                    st: final(self)@,
                }) == grammar::template_name(
                    env,
                    grammar::rules(env, old(self).depth),
                    old(self)@,
                ),
        decreases grammar::room(old(self).depth), 3nat, 0nat, 0nat,
    {
        proof {
            reveal(grammar::template_name);
        }
        let names_num = self.names.logical_num();
        let names_start = self.names.logical_start();
        let stack_num = self.stack.logical_num();
        match self.names.set_start(names_num) {
            Err(error) => {
                self.restore_template_state(names_num, names_start, stack_num)?;
                return Err(error);
            },
            Ok(_) => {},
        }
        let parsed = self.parse_template_name_body();
        self.restore_template_state(names_num, names_start, stack_num)?;
        self.render_template_name(parsed?)
    }

    /// Reads a name and its template arguments. A list that cannot be read is dropped.
    pub fn parse_template_name_body(&mut self) -> (r: Result<TemplateNameParts, ParseFailure>)
        ensures
            r matches Ok(parts) ==> parser::paid_for(parts.literal@, *final(self)),
            parser::kept(*old(self), *final(self)),
            parser::anchored(*old(self), *final(self)),
            parser::balanced(*old(self), *final(self)),
            forall|env: Env|
                old(self).fits(env) && #[trigger] final(self).budget.agrees(env.grants) ==> old(
                    self,
                ).budget.agrees(env.grants) && (Step {
                    out: parser::viewed(r),
                    st: final(self)@,
                }) == grammar::template_body(
                    env,
                    grammar::rules(env, old(self).depth),
                    old(self)@,
                ),
        decreases grammar::room(old(self).depth), 2nat, 0nat, 0nat,
    {
        proof {
            reveal(grammar::template_body);
        }
        let literal = self.read_literal()?;
        let mut local_parameter_types = RefArray::new();
        let arguments = match self.parse_arguments(
            Some(&mut local_parameter_types),
            false,
            '<' as u8,
            '>' as u8,
        ) {
            Ok(arguments) => Some(arguments),
            Err(error) => match error {
                ParseFailure::InvalidReferenceRestore { requested, max } => return Err(error),
                ParseFailure::InvalidReferenceStart { requested, max } => return Err(error),
                _ => None,
            },
        };
        Ok(TemplateNameParts { literal, arguments })
    }

    /// Renders a template name with its arguments.
    pub fn render_template_name(
        &mut self,
        parsed: TemplateNameParts,
    ) -> (r: Result<String, ParseFailure>)
        ensures
            final(self).names == old(self).names,
            r is Ok && parser::paid_for(parsed.literal@, *old(self)) ==> parser::paid_for(
                r->Ok_0@,
                *final(self),
            ),
            parser::kept(*old(self), *final(self)),
            parser::anchored(*old(self), *final(self)),
            parser::balanced(*old(self), *final(self)),
            forall|env: Env|
                old(self).fits(env) && #[trigger] final(self).budget.agrees(env.grants) ==> old(
                    self,
                ).budget.agrees(env.grants) && (Step {
                    out: text::text_result(r),
                    st: final(self)@,
                }) == grammar::template_text(
                    env,
                    old(self)@,
                    parsed@.0,
                    parsed@.1,
                ),
    {
        proof {
            reveal_with_fuel(text::joined, 3);
        }
        match parsed.arguments {
            Some(arguments) => self.emit(&[parsed.literal.as_str(), arguments.as_str()]),
            None => Ok(parsed.literal),
        }
    }

    /// Cuts the tables back to what they were before a template name.
    pub fn restore_template_state(
        &mut self,
        names_num: usize,
        names_start: usize,
        stack_num: usize,
    ) -> (r: Result<(), ParseFailure>)
        ensures
            parser::kept(*old(self), *final(self)),
            stack_num <= old(self).stack@.max ==> final(self).stack@.num == stack_num,
            names_num <= old(self).names@.max && names_start <= old(self).names@.max ==> {
                &&& final(self).names@.num == names_num
                &&& final(self).names@.start == names_start
            },
            forall|env: Env|
                old(self).fits(env) && #[trigger] final(self).budget.agrees(env.grants) ==> old(
                    self,
                ).budget.agrees(env.grants) && (Step {
                    out: r,
                    st: final(self)@,
                }) == grammar::template_restored(
                    old(self)@,
                    names_num,
                    names_start,
                    stack_num,
                ),
    {
        let names_num_result = self.names.restore_num(names_num);
        let names_start_result = self.names.set_start(names_start);
        let stack_num_result = self.stack.restore_num(stack_num);
        names_num_result?;
        names_start_result?;
        stack_num_result
    }
}

} // verus!
