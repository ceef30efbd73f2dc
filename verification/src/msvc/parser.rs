//! The parser of symbols.

pub mod functions;
pub mod methods;
pub mod modifiers;
pub mod names;
pub mod operators;
pub mod symbols;
pub mod types;

use vstd::prelude::*;
use vstd::string::*;

use crate::cursor::Cursor;
use crate::error::ParseFailure;
use crate::function_name::{FunctionName, NameView};
use crate::limits::{MAX_INPUT_BYTES, MAX_OUTPUT_BYTES};
use crate::msvc::codes::{thunk_access, CallingConvention, MethodKind, Modifier};
use crate::msvc::flags::{
    UNDNAME_NAME_ONLY, UNDNAME_NO_ACCESS_SPECIFIERS, UNDNAME_NO_ALLOCATION_LANGUAGE,
    UNDNAME_NO_COMPLEX_TYPE, UNDNAME_NO_FUNCTION_RETURNS, UNDNAME_NO_MEMBER_TYPE,
};
use crate::msvc::grammar::{
    DataView, Env, HeadView, MemberView, MethodView, PrefixView, SignatureView, State, Step,
};
use crate::msvc::grammar;
use crate::msvc::lexer::{
    allocate_concat, parse_literal_string, parse_modifier, parse_number, render_class_name,
    Datatype,
};
use crate::msvc::lexer;
use crate::msvc::state;
use crate::msvc::state::{AttemptBudget, Grants, RefArray};
use crate::text::{starts_with_char, without_first, Text};
use crate::text;

verus! {

/// A parser of one symbol.
pub struct MsvcParser<'input> {
    pub cursor: Cursor<'input>,
    pub flags: u16,
    pub names: RefArray,
    pub stack: RefArray,
    pub budget: AttemptBudget,
    pub depth: usize,
    pub name_pos: usize,
}

/// A qualifier that was joined from two, or is fixed.
pub enum MemberFunctionModifier {
    Owned(String),
    Static(&'static str),
}

/// A calling convention, a return type and an argument list.
pub struct StandaloneFunctionParts {
    pub calling_convention: Option<&'static str>,
    pub exported: Option<&'static str>,
    pub return_type: Datatype,
    pub arguments: String,
}

/// The parts of a pointer to a member function.
pub struct MemberFunctionPointerParts {
    pub class: String,
    pub post_modifier: Option<MemberFunctionModifier>,
    pub signature: StandaloneFunctionParts,
}

/// A template name and its arguments, if they could be read.
pub struct TemplateNameParts {
    pub literal: String,
    pub arguments: Option<String>,
}

/// The type of a variable and its qualifiers.
pub struct DataParts {
    pub datatype: Datatype,
    pub modifier: Option<MemberFunctionModifier>,
}

/// What stands in front of a modified datatype.
pub struct ModifiedPrefix {
    pub rendered: String,
    pub qualifier: Option<&'static str>,
}

/// What a method code says, the access that is shown and the name.
pub struct MethodHead {
    pub kind: MethodKind,
    pub base_access: &'static str,
    pub thunk_access: Option<String>,
    pub name: String,
}

/// The parts of a function.
pub struct MethodParts {
    pub kind: MethodKind,
    pub base_access: &'static str,
    pub thunk_access: Option<String>,
    pub name: String,
    pub modifier: Option<String>,
    pub calling_convention: CallingConvention,
    pub return_type: Datatype,
    pub arguments: String,
}

impl MemberFunctionModifier {
    /// The text of this qualifier.
    pub open spec fn text(self) -> Text {
        match self {
            MemberFunctionModifier::Owned(value) => value@,
            MemberFunctionModifier::Static(value) => value@,
        }
    }

    /// The text of this qualifier.
    pub fn as_str(&self) -> (r: &str)
        ensures
            r@ == self.text(),
    {
        match self {
            MemberFunctionModifier::Owned(value) => value.as_str(),
            MemberFunctionModifier::Static(value) => value,
        }
    }
}

/// An optional qualifier taken by its text.
pub open spec fn modifier_view(modifier: Option<MemberFunctionModifier>) -> Option<Text> {
    match modifier {
        Some(modifier) => Some(modifier.text()),
        None => None,
    }
}

impl View for StandaloneFunctionParts {
    type V = SignatureView;

    open spec fn view(&self) -> SignatureView {
        SignatureView {
            convention: CallingConvention {
                calling_convention: self.calling_convention,
                exported: self.exported,
            },
            result: self.return_type@,
            arguments: self.arguments@,
        }
    }
}

impl View for MemberFunctionPointerParts {
    type V = MemberView;

    open spec fn view(&self) -> MemberView {
        MemberView {
            class: self.class@,
            post_modifier: modifier_view(self.post_modifier),
            signature: self.signature@,
        }
    }
}

impl View for TemplateNameParts {
    type V = (Text, Option<Text>);

    open spec fn view(&self) -> (Text, Option<Text>) {
        (self.literal@, text::owned_text(self.arguments))
    }
}

impl View for DataParts {
    type V = DataView;

    open spec fn view(&self) -> DataView {
        DataView {
            datatype: self.datatype@,
            modifier: text::optional_text(modifier_view(self.modifier)),
        }
    }
}

impl View for ModifiedPrefix {
    type V = PrefixView;

    open spec fn view(&self) -> PrefixView {
        PrefixView { rendered: self.rendered@, qualifier: self.qualifier }
    }
}

/// The access that is shown: that of a thunk, or that of the code.
pub open spec fn access_view(base: &'static str, thunk: Option<String>) -> Text {
    match thunk {
        Some(access) => access@,
        None => base@,
    }
}

impl View for MethodHead {
    type V = HeadView;

    open spec fn view(&self) -> HeadView {
        HeadView {
            kind: self.kind,
            access: access_view(self.base_access, self.thunk_access),
            name: self.name@,
        }
    }
}

impl View for MethodParts {
    type V = MethodView;

    open spec fn view(&self) -> MethodView {
        MethodView {
            kind: self.kind,
            access: access_view(self.base_access, self.thunk_access),
            name: self.name@,
            modifier: text::owned_text(self.modifier),
            convention: self.calling_convention,
            result: self.return_type@,
            arguments: self.arguments@,
        }
    }
}

/// A result taken by its view.
pub open spec fn viewed<T: View>(r: Result<T, ParseFailure>) -> Result<T::V, ParseFailure> {
    match r {
        Ok(value) => Ok(value@),
        Err(error) => Err(error),
    }
}

impl View for MsvcParser<'_> {
    type V = State;

    open spec fn view(&self) -> State {
        State {
            tape: lexer::tape(&self.cursor, &self.budget),
            names: self.names@,
            stack: self.stack@,
            name_pos: self.name_pos,
        }
    }
}

/// The parser at `after` reads the same input as at `before`, and no less of it,
/// with the same flags and at the same depth. Nothing that it used or learned is
/// forgotten.
pub open spec fn kept(before: MsvcParser<'_>, after: MsvcParser<'_>) -> bool {
    &&& lexer::moved(&before.cursor, &after.cursor)
    &&& after.flags == before.flags
    &&& after.depth == before.depth
    &&& state::spent(before.budget.ledger(), after.budget.ledger())
    &&& state::grown(before.names@, after.names@)
    &&& state::grown(before.stack@, after.stack@)
}

/// The parser at `after` has as many components on its stack as at `before`.
pub open spec fn balanced(before: MsvcParser<'_>, after: MsvcParser<'_>) -> bool {
    before.stack@.well_formed() ==> after.stack@.num == before.stack@.num
}

/// The parser at `after` knows the same names by number as at `before`.
pub open spec fn rescoped(before: MsvcParser<'_>, after: MsvcParser<'_>) -> bool {
    before.names@.well_formed() && before.names@.start <= before.names@.max ==> after.names@.num
        == before.names@.num && after.names@.start == before.names@.start
}

/// The parser at `after` counts back-references to names from the same one as at
/// `before`.
pub open spec fn anchored(before: MsvcParser<'_>, after: MsvcParser<'_>) -> bool {
    before.names@.well_formed() && before.names@.start <= before.names@.max ==> after.names@.start
        == before.names@.start
}

/// The budget was charged for as much text as there is in `text`.
pub open spec fn paid_for(text: Text, parser: MsvcParser<'_>) -> bool {
    text::byte_width(text) <= parser.budget.ledger().used
}

/// The budget was charged for as much text as there is in `text`, if there is any.
pub open spec fn paid_for_any(text: Option<String>, parser: MsvcParser<'_>) -> bool {
    text matches Some(text) ==> paid_for(text@, parser)
}

impl<'a> MsvcParser<'a> {
    /// `env` has the input and the flags of this parser.
    pub open spec fn fits(&self, env: Env) -> bool {
        env.input == self.cursor.input() && env.flags == self.flags
    }

    /// Joins `parts`, within the budget.
    pub fn emit(&mut self, parts: &[&str]) -> (r: Result<String, ParseFailure>)
        ensures
            final(self).cursor == old(self).cursor,
            final(self).flags == old(self).flags,
            final(self).depth == old(self).depth,
            final(self).names == old(self).names,
            final(self).stack == old(self).stack,
            state::spent(old(self).budget.ledger(), final(self).budget.ledger()),
            r matches Ok(output) ==> output@ == text::joined(parts@, parts@.len()) && paid_for(
                output@,
                *final(self),
            ),
            forall|env: Env|
                old(self).fits(env) && #[trigger] final(self).budget.agrees(env.grants) ==> old(
                    self,
                ).budget.agrees(env.grants) && (Step {
                    out: text::text_result(r),
                    st: final(self)@,
                }) == old(self)@.emit(env, text::joined(parts@, parts@.len())),
    {
        allocate_concat(&mut self.budget, parts)
    }

    /// Copies `value`, within the budget.
    pub fn emit_copy(&mut self, value: &str) -> (r: Result<String, ParseFailure>)
        ensures
            r matches Ok(output) ==> paid_for(output@, *final(self)),
            final(self).cursor == old(self).cursor,
            final(self).flags == old(self).flags,
            final(self).depth == old(self).depth,
            final(self).names == old(self).names,
            final(self).stack == old(self).stack,
            state::spent(old(self).budget.ledger(), final(self).budget.ledger()),
            forall|env: Env|
                old(self).fits(env) && #[trigger] final(self).budget.agrees(env.grants) ==> old(
                    self,
                ).budget.agrees(env.grants) && (Step {
                    out: text::text_result(r),
                    st: final(self)@,
                }) == old(self)@.emit(env, value@),
    {
        self.budget.copy_string(value)
    }

    /// A parser before the first byte of `input`.
    pub fn new(input: &'a [u8], flags: u16) -> (r: Result<Self, ParseFailure>)
        ensures
            if input@.len() > MAX_INPUT_BYTES {
                r == Err::<Self, ParseFailure>(
                    ParseFailure::InputLimitExceeded {
                        attempted: input@.len() as usize,
                        limit: MAX_INPUT_BYTES,
                    },
                )
            } else {
                r matches Ok(parser) && parser.cursor.input() == input@ && parser.flags
                    == grammar::effective_flags(flags) && parser.depth == 0 && parser@
                    == grammar::initial() && forall|g: Grants| parser.budget.agrees(g)
            },
    {
        if input.len() > MAX_INPUT_BYTES {
            return Err(
                ParseFailure::InputLimitExceeded {
                    attempted: input.len(),
                    limit: MAX_INPUT_BYTES,
                },
            );
        }
        let flags = if flags & UNDNAME_NAME_ONLY != 0 {
            flags | UNDNAME_NO_FUNCTION_RETURNS | UNDNAME_NO_ACCESS_SPECIFIERS
                | UNDNAME_NO_MEMBER_TYPE | UNDNAME_NO_ALLOCATION_LANGUAGE | UNDNAME_NO_COMPLEX_TYPE
        } else {
            flags
        };
        Ok(
            MsvcParser {
                cursor: Cursor::new(input),
                flags,
                names: RefArray::new(),
                stack: RefArray::new(),
                budget: AttemptBudget::new(),
                depth: 0,
                name_pos: 0,
            },
        )
    }

    /// Reads a number and renders it.
    pub fn read_number(&mut self) -> (r: Result<String, ParseFailure>)
        ensures
            kept(*old(self), *final(self)),
            balanced(*old(self), *final(self)),
            anchored(*old(self), *final(self)),
            forall|env: Env|
                old(self).fits(env) && #[trigger] final(self).budget.agrees(env.grants) ==> old(
                    self,
                ).budget.agrees(env.grants) && (Step {
                    out: text::text_result(r),
                    st: final(self)@,
                }) == old(self)@.lift(grammar::number(env, old(self)@.tape)),
    {
        parse_number(&mut self.cursor, &mut self.budget)
    }

    /// Reads a name, learns it and returns a copy of it.
    pub fn read_literal(&mut self) -> (r: Result<String, ParseFailure>)
        ensures
            r matches Ok(output) ==> paid_for(output@, *final(self)),
            kept(*old(self), *final(self)),
            balanced(*old(self), *final(self)),
            anchored(*old(self), *final(self)),
            r is Ok ==> old(self).cursor.pos() < final(self).cursor.pos(),
            forall|env: Env|
                old(self).fits(env) && #[trigger] final(self).budget.agrees(env.grants) ==> old(
                    self,
                ).budget.agrees(env.grants) && (Step {
                    out: text::text_result(r),
                    st: final(self)@,
                }) == old(self)@.lift_named(
                    grammar::literal(env, old(self)@.tape, old(self)@.names),
                ),
    {
        parse_literal_string(&mut self.cursor, &mut self.names, &mut self.budget)
    }

    /// Reads a qualifier and an optional pointer keyword.
    pub fn read_modifier(&mut self) -> (r: Result<Modifier, ParseFailure>)
        ensures
            kept(*old(self), *final(self)),
            balanced(*old(self), *final(self)),
            anchored(*old(self), *final(self)),
            forall|env: Env|
                old(self).fits(env) && #[trigger] final(self).budget.agrees(env.grants) ==> old(
                    self,
                ).budget.agrees(env.grants) && (Step {
                    out: r,
                    st: final(self)@,
                }) == old(self)@.lift(grammar::modifier(env, old(self)@.tape)),
    {
        parse_modifier(&mut self.cursor, self.flags)
    }

    /// Renders the active components from `start` on.
    pub fn read_class_name(&mut self, start: usize) -> (r: Result<String, ParseFailure>)
        ensures
            kept(*old(self), *final(self)),
            balanced(*old(self), *final(self)),
            anchored(*old(self), *final(self)),
            forall|env: Env|
                old(self).fits(env) && #[trigger] final(self).budget.agrees(env.grants) ==> old(
                    self,
                ).budget.agrees(env.grants) && (Step {
                    out: text::text_result(r),
                    st: final(self)@,
                }) == grammar::render_class(
                    env,
                    old(self)@,
                    start,
                ),
    {
        render_class_name(&self.stack, start, &mut self.budget)
    }
}

/// `text` without the blank that it may start with.
pub fn strip_leading_blank(text: &str) -> (r: &str)
    ensures
        r@ == grammar::without_leading_blank(text@),
{
    if starts_with_char(text, ' ') {
        without_first(text)
    } else {
        text
    }
}

/// Demangles `raw`, as far as the allocator grants the room for it.
pub fn demangle(raw: &str, flags: u16) -> (r: Result<FunctionName, ParseFailure>)
    ensures
        exists|grants: Grants|
            viewed(r) == #[trigger] grammar::demangled(raw.spec_bytes(), flags, grants),
        r matches Ok(name) ==> text::byte_width(name@.full) <= MAX_OUTPUT_BYTES,
{
    let mut parser = match MsvcParser::new(raw.as_bytes(), flags) {
        Ok(parser) => parser,
        Err(error) => {
            proof {
                let grants: Grants = |n: nat| true;
                assert(grammar::demangled(raw.spec_bytes(), flags, grants) == Err::<
                    NameView,
                    ParseFailure,
                >(error));
            }
            return Err(error);
        },
    };
    let r = parser.parse_symbol();
    proof {
        let grants = parser.budget.lemma_some_grants();
        let env = Env {
            input: raw.spec_bytes(),
            flags: grammar::effective_flags(flags),
            grants,
        };
        assert(parser.budget.agrees(env.grants));
        assert(viewed(r) == grammar::demangled(raw.spec_bytes(), flags, grants));
    }
    r
}

} // verus!
