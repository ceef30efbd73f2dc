//! What each construct of the encoding denotes.
//!
//! Every function here maps a parser state to an outcome and the state after it.
//! An outcome is exact: it names the text that is rendered, or the failure, and
//! the state records how far the input was read, which back-references were
//! learned and what was spent. Allocation can fail at any request; how it goes
//! is a parameter of the environment.

use vstd::prelude::*;

use crate::cursor;
use crate::error::ParseFailure;
use crate::function_name;
use crate::function_name::NameView;
use crate::limits::{
    MAX_ARGUMENTS, MAX_BACKREFERENCES, MAX_INPUT_BYTES, MAX_MSVC_NESTING_DEPTH, MAX_OUTPUT_BYTES,
    MAX_STANDALONE_ARRAY_DIMENSIONS,
};
use crate::msvc::codes;
use crate::msvc::codes::{Modifier, TopLevel};
use crate::msvc::flags::{
    UNDNAME_NAME_ONLY, UNDNAME_NO_ACCESS_SPECIFIERS, UNDNAME_NO_ALLOCATION_LANGUAGE,
    UNDNAME_NO_ARGUMENTS, UNDNAME_NO_COMPLEX_TYPE, UNDNAME_NO_FUNCTION_RETURNS,
    UNDNAME_NO_MEMBER_TYPE, UNDNAME_NO_MS_KEYWORDS, UNDNAME_NO_THISTYPE,
};
use crate::msvc::state::{Grants, Ledger, Table};
use crate::text;
use crate::text::Text;

verus! {

/// The largest number that the encoding can hold.
pub const MAX_ENCODED_NUMBER: u32 = 2147483647;

/// What stays fixed during one attempt.
pub struct Env {
    pub input: Seq<u8>,
    pub flags: u16,
    pub grants: Grants,
}

/// A read position and what was spent so far.
pub struct Tape {
    pub pos: usize,
    pub ledger: Ledger,
}

/// The whole parser state but for the nesting depth.
pub struct State {
    pub tape: Tape,
    pub names: Table,
    pub stack: Table,
    pub name_pos: usize,
}

/// An outcome of a construct that touches no table.
pub struct Read<T> {
    pub out: Result<T, ParseFailure>,
    pub tape: Tape,
}

/// An outcome of a construct that learns names.
pub struct Named<T> {
    pub out: Result<T, ParseFailure>,
    pub tape: Tape,
    pub names: Table,
}

/// An outcome of a construct that may learn parameter types and nothing else.
pub struct Sorted<T> {
    pub out: Result<T, ParseFailure>,
    pub tape: Tape,
    pub types: Option<Table>,
}

/// An outcome of a construct that touches the parser state.
pub struct Step<T> {
    pub out: Result<T, ParseFailure>,
    pub st: State,
}

/// An outcome of a construct that touches the parser state and the table of
/// parameter types.
pub struct Typed<T> {
    pub out: Result<T, ParseFailure>,
    pub st: State,
    pub types: Option<Table>,
}

/// What the constructs that nest denote at some depth: a datatype, and a symbol
/// inside a symbol.
pub struct Rules {
    pub datatype: spec_fn(State, Option<Table>, bool) -> Typed<TypeView>,
    pub nested: spec_fn(State) -> Step<NameView>,
}

/// The rendering of a datatype: what stands left of a declared name, and what
/// stands right of it.
pub struct TypeView {
    pub left: Text,
    pub right: Option<Text>,
}

// ---------------------------------------------------------------------------
// Environment and state
// ---------------------------------------------------------------------------

impl Env {
    /// The byte `offset` places after `pos`.
    pub open spec fn at(self, pos: usize, offset: nat) -> Option<u8> {
        cursor::byte_at(self.input, pos, offset)
    }

    /// The byte `offset` places after `pos` is `code`.
    pub open spec fn reads(self, pos: usize, offset: nat, code: char) -> bool {
        cursor::reads(self.input, pos, offset, code)
    }

    /// Some bit of `mask` is set in the flags.
    pub open spec fn has(self, mask: u16) -> bool {
        self.flags & mask != 0
    }
}

impl Tape {
    /// The tape with `amount` more bytes consumed.
    pub open spec fn skip(self, amount: nat) -> Tape {
        Tape { pos: (self.pos + amount) as usize, ..self }
    }

    /// Renders `text`.
    pub open spec fn emit(self, env: Env, text: Text) -> Read<Text> {
        let charged = self.ledger.produce(env.grants, text);
        Read { out: charged.out, tape: Tape { ledger: charged.ledger, ..self } }
    }
}

impl State {
    /// The read position.
    pub open spec fn pos(self) -> usize {
        self.tape.pos
    }

    /// The state with `amount` more bytes consumed.
    pub open spec fn skip(self, amount: nat) -> State {
        State { tape: self.tape.skip(amount), ..self }
    }

    /// The state with `tape` in place of its own.
    pub open spec fn on(self, tape: Tape) -> State {
        State { tape, ..self }
    }

    /// The state with `ledger` in place of its own.
    pub open spec fn paid(self, ledger: Ledger) -> State {
        State { tape: Tape { ledger, ..self.tape }, ..self }
    }

    /// Lifts an outcome that touches no table.
    pub open spec fn lift<T>(self, read: Read<T>) -> Step<T> {
        Step { out: read.out, st: self.on(read.tape) }
    }

    /// Lifts an outcome that touches the names alone.
    pub open spec fn lift_named<T>(self, named: Named<T>) -> Step<T> {
        Step { out: named.out, st: State { tape: named.tape, names: named.names, ..self } }
    }

    /// Renders `text`.
    pub open spec fn emit(self, env: Env, text: Text) -> Step<Text> {
        self.lift(self.tape.emit(env, text))
    }

    /// Adds `value` to the stack of name components.
    pub open spec fn push_stack(self, env: Env, value: Text) -> Step<()> {
        let stored = self.stack.push(env.grants, self.tape.ledger, value);
        Step { out: stored.out, st: State { stack: stored.table, ..self.paid(stored.ledger) } }
    }

    /// Adds `value` to the names that back-references reach.
    pub open spec fn push_name(self, env: Env, value: Text) -> Step<()> {
        let stored = self.names.push(env.grants, self.tape.ledger, value);
        Step { out: stored.out, st: State { names: stored.table, ..self.paid(stored.ledger) } }
    }

    /// A failure in this state.
    pub open spec fn fail<T>(self, error: ParseFailure) -> Step<T> {
        Step { out: Err(error), st: self }
    }
}

/// An outcome after the stack was cut back to `checkpoint` entries. If that is
/// impossible, it is the failure that is reported.
pub open spec fn settled<T>(step: Step<T>, checkpoint: usize) -> Step<T> {
    match step.st.stack.restore_error(checkpoint) {
        Some(error) => step.st.fail(error),
        None => Step {
            out: step.out,
            st: State { stack: step.st.stack.restored(checkpoint), ..step.st },
        },
    }
}

/// Like `settled`, with the parameter types carried along.
pub open spec fn settled_typed<T>(step: Typed<T>, checkpoint: usize) -> Typed<T> {
    let settled = settled(Step { out: step.out, st: step.st }, checkpoint);
    Typed { out: settled.out, st: settled.st, types: step.types }
}

/// An outcome with `types` carried along.
pub open spec fn with_types<T>(step: Step<T>, types: Option<Table>) -> Typed<T> {
    Typed { out: step.out, st: step.st, types }
}

/// The nesting depth that is left below depth `d`.
pub open spec fn room(d: usize) -> nat {
    if d <= MAX_MSVC_NESTING_DEPTH {
        (MAX_MSVC_NESTING_DEPTH - d) as nat
    } else {
        0
    }
}

// ---------------------------------------------------------------------------
// Numbers and literals
// ---------------------------------------------------------------------------

/// The decimal digits of `value`.
pub open spec fn decimal(value: nat) -> Text
    decreases value,
{
    let digit = (('0' as nat) + value % 10) as char;
    if value < 10 {
        seq![digit]
    } else {
        decimal(value / 10).push(digit)
    }
}

/// A number as it is rendered.
pub open spec fn number_text(value: nat, negative: bool) -> Text {
    if negative {
        seq!['-'] + decimal(value)
    } else {
        decimal(value)
    }
}

/// Hexadecimal digits `A` to `P`, closed by `@`. `value` is what was read before.
pub open spec fn hexadecimal(
    env: Env,
    tape: Tape,
    start: usize,
    value: nat,
    negative: bool,
) -> Read<Text>
    decreases env.input.len() - tape.pos,
{
    match env.at(tape.pos, 0) {
        Some(byte) if codes::between(byte, 'A', 'P') && tape.pos < usize::MAX => {
            let next = value * 16 + (byte - 'A' as u8) as nat;
            if next > MAX_ENCODED_NUMBER {
                Read {
                    out: Err(
                        ParseFailure::NumberOverflow {
                            start,
                            offset: tape.pos,
                            max: MAX_ENCODED_NUMBER,
                        },
                    ),
                    tape: tape.skip(1),
                }
            } else {
                hexadecimal(env, tape.skip(1), start, next, negative)
            }
        },
        Some(byte) if byte == '@' as u8 => tape.skip(1).emit(env, number_text(value, negative)),
        found => Read {
            out: Err(ParseFailure::MissingNumberTerminator { offset: tape.pos, found }),
            tape,
        },
    }
}

/// An encoded number: an optional `?` for a minus sign, then one digit that
/// stands for one to ten, or hexadecimal digits.
#[verifier::opaque]
pub open spec fn number(env: Env, tape: Tape) -> Read<Text> {
    let negative = env.reads(tape.pos, 0, '?');
    let body = if negative {
        tape.skip(1)
    } else {
        tape
    };
    match env.at(body.pos, 0) {
        Some(byte) if codes::between(byte, '0', '9') => body.skip(1).emit(
            env,
            number_text((byte - '0' as u8 + 1) as nat, negative),
        ),
        Some(byte) if codes::between(byte, 'A', 'P') => hexadecimal(env, body, tape.pos, 0, negative),
        found => Read {
            out: Err(ParseFailure::InvalidNumberStart { offset: body.pos, found }),
            tape: body,
        },
    }
}

/// A byte that can stand in a name.
pub open spec fn literal_byte(byte: u8) -> bool {
    codes::between(byte, '0', '9') || codes::between(byte, 'A', 'Z') || codes::between(byte, 'a', 'z') || byte
        == '_' as u8 || byte == '$' as u8 || byte == '<' as u8 || byte == '>' as u8
}

/// The number of name bytes from `pos` on.
pub open spec fn literal_run(input: Seq<u8>, pos: int) -> nat
    decreases input.len() - pos,
{
    if 0 <= pos < input.len() && literal_byte(input[pos]) {
        1 + literal_run(input, pos + 1)
    } else {
        0
    }
}

/// A name: at least one name byte, closed by `@`. It is learned and copied.
#[verifier::opaque]
pub open spec fn literal(env: Env, tape: Tape, names: Table) -> Named<Text> {
    let end = (tape.pos + literal_run(env.input, tape.pos as int)) as usize;
    let at_end = Tape { pos: end, ..tape };
    if end > tape.pos && env.reads(end, 0, '@') {
        let name = text::ascii(env.input.subrange(tape.pos as int, end as int));
        let stored = names.push(env.grants, tape.ledger, name);
        let after = Tape { ledger: stored.ledger, ..at_end.skip(1) };
        match stored.out {
            Err(error) => Named { out: Err(error), tape: after, names: stored.table },
            Ok(_) => {
                let copied = after.emit(env, name);
                Named { out: copied.out, tape: copied.tape, names: stored.table }
            },
        }
    } else {
        Named {
            out: Err(ParseFailure::InvalidLiteral { offset: end, found: env.at(end, 0) }),
            tape: at_end,
            names,
        }
    }
}

/// The number that `digits` write in decimal, if they are digits.
pub open spec fn decimal_value(digits: Seq<u8>) -> Option<nat>
    decreases digits.len(),
{
    if digits.len() == 0 {
        Some(0)
    } else {
        match decimal_value(digits.drop_last()) {
            Some(value) if codes::between(digits.last(), '0', '9') => Some(
                value * 10 + (digits.last() - '0' as u8) as nat,
            ),
            _ => None,
        }
    }
}

/// The number of array dimensions that a rendered number announces.
pub open spec fn dimension_count(rendered: Seq<u8>, offset: usize) -> Result<usize, ParseFailure> {
    let negative = rendered.len() > 0 && rendered[0] == '-' as u8;
    let digits = if negative {
        rendered.drop_first()
    } else {
        rendered
    };
    match decimal_value(digits) {
        Some(value) if value <= MAX_ENCODED_NUMBER => if negative && value != 0 {
            Err(ParseFailure::NegativeArrayDimensionCount { offset, value: (-value) as i32 })
        } else {
            Ok(value as usize)
        },
        _ => Err(ParseFailure::InvalidArrayDimensionCount { offset }),
    }
}

/// A qualifier at `pos`, after an optional `E` for a pointer keyword, and the
/// position behind it.
pub open spec fn modifier_at(input: Seq<u8>, flags: u16, pos: usize) -> (
    Result<Modifier, ParseFailure>,
    usize,
) {
    let extended = cursor::reads(input, pos, 0, 'E');
    let body = if extended {
        (pos + 1) as usize
    } else {
        pos
    };
    let pointer_modifier = if extended && flags & UNDNAME_NO_MS_KEYWORDS == 0 {
        Some(codes::keyword(flags, "ptr64", "__ptr64"))
    } else {
        None
    };
    match cursor::byte_at(input, body, 0) {
        None => (Err(ParseFailure::UnexpectedEnd { offset: body }), body),
        Some(code) => (
            match code as char {
                'A' => Ok(Modifier { qualifier: None, pointer_modifier }),
                'B' => Ok(Modifier { qualifier: Some("const"), pointer_modifier }),
                'C' => Ok(Modifier { qualifier: Some("volatile"), pointer_modifier }),
                'D' => Ok(Modifier { qualifier: Some("const volatile"), pointer_modifier }),
                _ => Err(ParseFailure::InvalidModifier { offset: body, found: code }),
            },
            (body + 1) as usize,
        ),
    }
}

/// A qualifier.
pub open spec fn modifier(env: Env, tape: Tape) -> Read<Modifier> {
    let (out, pos) = modifier_at(env.input, env.flags, tape.pos);
    Read { out, tape: Tape { pos, ..tape } }
}

// ---------------------------------------------------------------------------
// Rendering
// ---------------------------------------------------------------------------

/// The rendered width of a qualified name with one more component.
pub open spec fn class_width(
    current: usize,
    component: nat,
    has_previous: bool,
) -> Result<usize, ParseFailure> {
    let total = current + component + if has_previous {
        2nat
    } else {
        0
    };
    if total > usize::MAX {
        Err(ParseFailure::OutputLimitExceeded { attempted: usize::MAX, limit: MAX_OUTPUT_BYTES })
    } else if total > MAX_OUTPUT_BYTES {
        Err(
            ParseFailure::OutputLimitExceeded {
                attempted: total as usize,
                limit: MAX_OUTPUT_BYTES,
            },
        )
    } else {
        Ok(total as usize)
    }
}

/// The rendered width of the components from `start` up to `end`.
pub open spec fn stacked_width(stack: Table, start: usize, end: usize) -> Result<
    usize,
    ParseFailure,
>
    decreases end,
{
    if end <= start {
        Ok(0)
    } else {
        let last = (end - 1) as usize;
        match stacked_width(stack, start, last) {
            Err(error) => Err(error),
            Ok(width) => match stack.active(last) {
                Err(error) => Err(error),
                Ok(component) => class_width(width, text::byte_width(component), last > start),
            },
        }
    }
}

/// The components from `start` up to `end`, innermost first, joined by `::`.
pub open spec fn qualified(slots: Seq<Text>, start: int, end: int) -> Text
    decreases end - start,
{
    if end <= start {
        Seq::empty()
    } else if end == start + 1 {
        slots[start]
    } else {
        slots[end - 1] + "::"@ + qualified(slots, start, end - 1)
    }
}

/// Renders the active components from `start` on.
pub open spec fn class_text(env: Env, ledger: Ledger, stack: Table, start: usize) -> Read<Text> {
    let tape = Tape { pos: 0, ledger };
    if start > stack.num {
        Read {
            out: Err(ParseFailure::ActiveReferenceOutOfRange { index: start, num: stack.num }),
            tape,
        }
    } else {
        match stacked_width(stack, start, stack.num) {
            Err(error) => Read { out: Err(error), tape },
            Ok(_) => tape.emit(env, qualified(stack.slots, start as int, stack.num as int)),
        }
    }
}

/// Renders the active components from `start` on.
pub open spec fn render_class(env: Env, st: State, start: usize) -> Step<Text> {
    let read = class_text(env, st.tape.ledger, st.stack, start);
    Step { out: read.out, st: st.paid(read.tape.ledger) }
}

/// `parts` joined by commas.
pub open spec fn comma_separated(parts: Seq<Text>) -> Text
    decreases parts.len(),
{
    if parts.len() == 0 {
        Seq::empty()
    } else if parts.len() == 1 {
        parts[0]
    } else {
        comma_separated(parts.drop_last()) + seq![','] + parts.last()
    }
}

/// An argument list as it is rendered. No argument is rendered as `void`, and a
/// template list that ends in a template list gets a blank before its bracket.
pub open spec fn arguments_text(arguments: Seq<Text>, open: u8, close: u8) -> Text {
    let inner = if arguments.len() == 0 || (arguments.len() == 1 && arguments[0] == "void"@) {
        "void"@
    } else if close == '>' as u8 && arguments.last().len() > 0 && arguments.last().last() == '>' {
        comma_separated(arguments) + seq![' ']
    } else {
        comma_separated(arguments)
    };
    seq![open as char] + inner + seq![close as char]
}

impl TypeView {
    /// What stands right of a declared name, empty where there is nothing.
    pub open spec fn right_text(self) -> Text {
        text::optional_text(self.right)
    }

    /// A datatype that stands left of a declared name.
    pub open spec fn plain(left: Text) -> TypeView {
        TypeView { left, right: None }
    }
}

/// Learns `datatype` as a parameter type, in an argument list that learns them.
pub open spec fn learn_type(
    env: Env,
    ledger: Ledger,
    types: Option<Table>,
    in_args: bool,
    datatype: TypeView,
) -> (Result<(), ParseFailure>, Ledger, Option<Table>) {
    match types {
        Some(table) if in_args => {
            let stored = table.push_pair(
                env.grants,
                ledger,
                datatype.left,
                datatype.right_text(),
            );
            (stored.out, stored.ledger, Some(stored.table))
        },
        _ => (Ok(()), ledger, types),
    }
}

/// Learns a parsed datatype as a parameter type and hands it on.
pub open spec fn recorded(
    env: Env,
    st: State,
    types: Option<Table>,
    in_args: bool,
    datatype: TypeView,
) -> Typed<TypeView> {
    let (out, ledger, types) = learn_type(env, st.tape.ledger, types, in_args, datatype);
    Typed {
        out: match out {
            Ok(_) => Ok(datatype),
            Err(error) => Err(error),
        },
        st: st.paid(ledger),
        types,
    }
}

// ---------------------------------------------------------------------------
// Datatypes without structure
// ---------------------------------------------------------------------------

/// One number, rendered between `before` and `after`.
pub open spec fn one_number(env: Env, tape: Tape, before: Text, after: Text) -> Read<Text> {
    let n1 = number(env, tape);
    match n1.out {
        Err(error) => n1,
        Ok(first) => n1.tape.emit(env, before + first + after),
    }
}

/// Two numbers, rendered between `before` and `after` with a comma between them.
pub open spec fn two_numbers(env: Env, tape: Tape, before: Text, after: Text) -> Read<Text> {
    let n1 = number(env, tape);
    match n1.out {
        Err(error) => n1,
        Ok(first) => {
            let n2 = number(env, n1.tape);
            match n2.out {
                Err(error) => n2,
                Ok(second) => n2.tape.emit(env, before + first + ","@ + second + after),
            }
        },
    }
}

/// Three numbers, rendered between `before` and `after` with commas.
pub open spec fn three_numbers(env: Env, tape: Tape, before: Text, after: Text) -> Read<Text> {
    let n1 = number(env, tape);
    match n1.out {
        Err(error) => n1,
        Ok(first) => {
            let n2 = number(env, n1.tape);
            match n2.out {
                Err(error) => n2,
                Ok(second) => {
                    let n3 = number(env, n2.tape);
                    match n3.out {
                        Err(error) => n3,
                        Ok(third) => n3.tape.emit(
                            env,
                            before + first + ","@ + second + ","@ + third + after,
                        ),
                    }
                },
            }
        },
    }
}

/// Four numbers, rendered between `before` and `after` with commas.
pub open spec fn four_numbers(env: Env, tape: Tape, before: Text, after: Text) -> Read<Text> {
    let n1 = number(env, tape);
    match n1.out {
        Err(error) => n1,
        Ok(first) => {
            let n2 = number(env, n1.tape);
            match n2.out {
                Err(error) => n2,
                Ok(second) => {
                    let n3 = number(env, n2.tape);
                    match n3.out {
                        Err(error) => n3,
                        Ok(third) => {
                            let n4 = number(env, n3.tape);
                            match n4.out {
                                Err(error) => n4,
                                Ok(fourth) => n4.tape.emit(
                                    env,
                                    before + first + ","@ + second + ","@ + third + ","@ + fourth
                                        + after,
                                ),
                            }
                        },
                    }
                },
            }
        },
    }
}

/// A datatype that starts with `$`, without nested symbols or types. `tape`
/// stands behind the `$`.
pub open spec fn dollar_text(env: Env, tape: Tape) -> Read<Text> {
    let body = tape.skip(1);
    match env.at(tape.pos, 0) {
        None => Read { out: Err(ParseFailure::UnexpectedEnd { offset: tape.pos }), tape },
        Some(subtype) => match subtype as char {
            '0' => number(env, body),
            'D' => one_number(env, body, "`template-parameter"@, "'"@),
            'F' => two_numbers(env, body, "{"@, "}"@),
            'G' => three_numbers(env, body, "{"@, "}"@),
            'Q' => one_number(env, body, "`non-type-template-parameter"@, "'"@),
            '$' => match env.at(body.pos, 0) {
                None => Read {
                    out: Err(ParseFailure::UnexpectedEnd { offset: body.pos }),
                    tape: body,
                },
                Some(found) => if found == 'T' as u8 {
                    body.skip(1).emit(env, "std::nullptr_t"@)
                } else {
                    Read {
                        out: Err(
                            ParseFailure::UnsupportedDatatypeForm {
                                offset: body.pos,
                                found,
                                introducer: "$$",
                            },
                        ),
                        tape: body,
                    }
                },
            },
            _ => Read {
                out: Err(
                    ParseFailure::UnsupportedDatatypeForm {
                        offset: tape.pos,
                        found: subtype,
                        introducer: "$",
                    },
                ),
                tape: body,
            },
        },
    }
}

/// A back-reference to a parameter type. Its right part may lie above the
/// high-water mark; then it has none.
pub open spec fn referenced_type(
    env: Env,
    tape: Tape,
    offset: usize,
    code: u8,
    types: Option<Table>,
) -> Read<TypeView> {
    let digit = (code - '0' as u8) as usize;
    match types {
        None => Read {
            out: Err(ParseFailure::MissingParameterTypeReferences { offset, digit: code }),
            tape,
        },
        Some(table) => match table.reference((digit * 2) as usize) {
            Err(error) => Read { out: Err(error), tape },
            Ok(left) => {
                let copied = tape.emit(env, left);
                match copied.out {
                    Err(error) => Read { out: Err(error), tape: copied.tape },
                    Ok(_) => match table.reference((digit * 2 + 1) as usize) {
                        Err(ParseFailure::ReferenceOutOfHighWater { start, index, max }) => Read {
                            out: Ok(TypeView::plain(left)),
                            tape: copied.tape,
                        },
                        Err(error) => Read { out: Err(error), tape: copied.tape },
                        Ok(right) => {
                            let both = copied.tape.emit(env, right);
                            Read {
                                out: match both.out {
                                    Err(error) => Err(error),
                                    Ok(_) => Ok(TypeView { left, right: Some(right) }),
                                },
                                tape: both.tape,
                            }
                        },
                    },
                }
            },
        },
    }
}

/// A datatype that needs neither names nor nested types. Types with a one-letter
/// code and back-references are not learned; the others are.
pub open spec fn simple_type(
    env: Env,
    tape: Tape,
    types: Option<Table>,
    in_args: bool,
) -> Sorted<TypeView> {
    let body = tape.skip(1);
    match env.at(tape.pos, 0) {
        None => Sorted {
            out: Err(ParseFailure::UnexpectedEnd { offset: tape.pos }),
            tape,
            types,
        },
        Some(code) => match codes::ordinary_primitive(code as char) {
            Some(name) => {
                let copied = body.emit(env, name@);
                Sorted {
                    out: match copied.out {
                        Err(error) => Err(error),
                        Ok(left) => Ok(TypeView::plain(left)),
                    },
                    tape: copied.tape,
                    types,
                }
            },
            None => if codes::between(code, '0', '9') {
                let read = referenced_type(env, body, tape.pos, code, types);
                Sorted { out: read.out, tape: read.tape, types }
            } else {
                let read = if code == '_' as u8 {
                    extended_type(env, body)
                } else if code == '$' as u8 {
                    dollar_text(env, body)
                } else {
                    Read {
                        out: Err(
                            ParseFailure::InvalidDatatypeCode { offset: tape.pos, found: code },
                        ),
                        tape: body,
                    }
                };
                match read.out {
                    Err(error) => Sorted { out: Err(error), tape: read.tape, types },
                    Ok(left) => {
                        let datatype = TypeView::plain(left);
                        let (out, ledger, types) = learn_type(
                            env,
                            read.tape.ledger,
                            types,
                            in_args,
                            datatype,
                        );
                        Sorted {
                            out: match out {
                                Ok(_) => Ok(datatype),
                                Err(error) => Err(error),
                            },
                            tape: Tape { ledger, ..read.tape },
                            types,
                        }
                    },
                }
            },
        },
    }
}

/// A type whose code follows an underscore. `tape` stands behind the underscore.
pub open spec fn extended_type(env: Env, tape: Tape) -> Read<Text> {
    match env.at(tape.pos, 0) {
        None => Read { out: Err(ParseFailure::UnexpectedEnd { offset: tape.pos }), tape },
        Some(subtype) => match codes::extended_primitive(subtype as char) {
            None => Read {
                out: Err(
                    ParseFailure::InvalidDatatypeCode { offset: tape.pos, found: subtype },
                ),
                tape: tape.skip(1),
            },
            Some(name) => tape.skip(1).emit(env, name@),
        },
    }
}

// ---------------------------------------------------------------------------
// Qualified names
// ---------------------------------------------------------------------------

/// Adds a component to the qualified name, whose rendered width was `width`.
pub open spec fn add_component(
    env: Env,
    st: State,
    component: Text,
    width: usize,
    has_previous: bool,
) -> Step<usize> {
    match class_width(width, text::byte_width(component), has_previous) {
        Err(error) => st.fail(error),
        Ok(next) => {
            let pushed = st.push_stack(env, component);
            Step {
                out: match pushed.out {
                    Err(error) => Err(error),
                    Ok(_) => Ok(next),
                },
                st: pushed.st,
            }
        },
    }
}

/// A component that a back-reference names.
pub open spec fn referenced_component(
    env: Env,
    st: State,
    digit: u8,
    width: usize,
    has_previous: bool,
) -> Step<usize> {
    match st.names.reference((digit - '0' as u8) as usize) {
        Err(error) => st.skip(1).fail(error),
        Ok(name) => add_component(env, st.skip(1), name, width, has_previous),
    }
}

/// A component that is spelled out.
pub open spec fn literal_component(
    env: Env,
    st: State,
    width: usize,
    has_previous: bool,
) -> Step<usize> {
    let read = st.lift_named(literal(env, st.tape, st.names));
    match read.out {
        Err(error) => read.st.fail(error),
        Ok(name) => add_component(env, read.st, name, width, has_previous),
    }
}

/// An unnamed namespace. Its spelling is learned under the name that is rendered.
pub open spec fn anonymous_component(
    env: Env,
    st: State,
    width: usize,
    has_previous: bool,
) -> Step<usize> {
    let read = st.lift_named(literal(env, st.tape, st.names));
    match read.out {
        Err(error) => read.st.fail(error),
        Ok(_) => {
            let replaced = read.st.names.replace_last(
                env.grants,
                read.st.tape.ledger,
                "`anonymous namespace'"@,
            );
            let st1 = State { names: replaced.table, ..read.st.paid(replaced.ledger) };
            match replaced.out {
                Err(error) => st1.fail(error),
                Ok(_) => add_component(
                    env,
                    st1,
                    "`anonymous namespace'"@,
                    width,
                    has_previous,
                ),
            }
        },
    }
}

/// A numbered scope.
pub open spec fn numeric_component(
    env: Env,
    st: State,
    width: usize,
    has_previous: bool,
) -> Step<usize> {
    let rendered = st.lift(one_number(env, st.tape, "`"@, "'"@));
    match rendered.out {
        Err(error) => rendered.st.fail(error),
        Ok(component) => add_component(env, rendered.st, component, width, has_previous),
    }
}

/// The components of a qualified name without templates, nested symbols or
/// numbered scopes, rendered at the closing `@`.
#[verifier::opaque]
pub open spec fn plain_components(env: Env, st: State, checkpoint: usize, width: usize) -> Step<
    Text,
>
    decreases env.input.len() - st.pos(),
{
    let has_previous = st.stack.num != checkpoint;
    match env.at(st.pos(), 0) {
        None => st.fail(ParseFailure::UnexpectedEnd { offset: st.pos() }),
        Some(code) => if code == '@' as u8 {
            if has_previous {
                render_class(env, st.skip(1), checkpoint)
            } else {
                st.skip(1).fail(ParseFailure::EmptyClass { offset: st.pos() })
            }
        } else if code == '?' as u8 {
            st.fail(
                ParseFailure::UnsupportedClassComponent { offset: st.pos(), found: code },
            )
        } else {
            let next = if codes::between(code, '0', '9') {
                referenced_component(env, st, code, width, has_previous)
            } else {
                literal_component(env, st, width, has_previous)
            };
            match next.out {
                Err(error) => next.st.fail(error),
                Ok(next_width) => if st.pos() < next.st.pos() <= env.input.len() {
                    plain_components(env, next.st, checkpoint, next_width)
                } else {
                    next.st.fail(ParseFailure::UnexpectedEnd { offset: next.st.pos() })
                },
            }
        },
    }
}

/// A symbol nested as a scope.
#[verifier::opaque]
pub open spec fn nested_component(
    env: Env,
    rules: Rules,
    st: State,
    width: usize,
    has_previous: bool,
) -> Step<usize>
{
    let nested = nested_symbol(rules, st);
    match nested.out {
        Err(error) => nested.st.fail(error),
        Ok(name) => {
            let rendered = nested.st.emit(env, "`"@ + name.full + "'"@);
            match rendered.out {
                Err(error) => rendered.st.fail(error),
                Ok(component) => add_component(
                    env,
                    rendered.st,
                    component,
                    width,
                    has_previous,
                ),
            }
        },
    }
}

/// A template instance as a scope. It is learned.
#[verifier::opaque]
pub open spec fn template_component(
    env: Env,
    rules: Rules,
    st: State,
    width: usize,
    has_previous: bool,
) -> Step<usize>
{
    let template = template_name(env, rules, st);
    match template.out {
        Err(error) => template.st.fail(error),
        Ok(component) => match class_width(width, text::byte_width(component), has_previous) {
            Err(error) => template.st.fail(error),
            Ok(next) => {
                let learned = template.st.push_name(env, component);
                match learned.out {
                    Err(error) => learned.st.fail(error),
                    Ok(_) => {
                        let pushed = learned.st.push_stack(env, component);
                        match pushed.out {
                            Err(error) => pushed.st.fail(error),
                            Ok(_) => Step { out: Ok(next), st: pushed.st },
                        }
                    },
                }
            },
        },
    }
}

/// A component that starts with `?`. `st` stands behind the `?`.
#[verifier::opaque]
pub open spec fn question_component(
    env: Env,
    rules: Rules,
    st: State,
    width: usize,
    has_previous: bool,
) -> Step<usize>
{
    match env.at(st.pos(), 0) {
        None => st.fail(ParseFailure::UnexpectedEnd { offset: st.pos() }),
        Some(code) => match code as char {
            '$' => template_component(env, rules, st.skip(1), width, has_previous),
            '?' => nested_component(env, rules, st, width, has_previous),
            'A' => anonymous_component(env, st, width, has_previous),
            _ => numeric_component(env, st, width, has_previous),
        },
    }
}

/// The components of a qualified name, innermost first, closed by `@`. The
/// entries of the stack from `checkpoint` on are those read before, and `width`
/// is their rendered width. Each component consumes input.
#[verifier::opaque]
pub open spec fn components(
    env: Env,
    rules: Rules,
    st: State,
    checkpoint: usize,
    width: usize,
) -> Step<()>
    decreases env.input.len() - st.pos(),
{
    let has_previous = st.stack.num != checkpoint;
    match env.at(st.pos(), 0) {
        None => st.fail(ParseFailure::UnexpectedEnd { offset: st.pos() }),
        Some(code) => if code == '@' as u8 {
            if has_previous {
                Step { out: Ok(()), st: st.skip(1) }
            } else {
                st.skip(1).fail(ParseFailure::EmptyClass { offset: st.pos() })
            }
        } else {
            let next = if code == '?' as u8 {
                question_component(env, rules, st.skip(1), width, has_previous)
            } else if codes::between(code, '0', '9') {
                referenced_component(env, st, code, width, has_previous)
            } else {
                literal_component(env, st, width, has_previous)
            };
            match next.out {
                Err(error) => next.st.fail(error),
                Ok(next_width) => if st.pos() < next.st.pos() <= env.input.len() {
                    components(env, rules, next.st, checkpoint, next_width)
                } else {
                    next.st.fail(ParseFailure::UnexpectedEnd { offset: next.st.pos() })
                },
            }
        },
    }
}

/// A qualified name on its own. The stack is left as it was found.
#[verifier::opaque]
pub open spec fn class_name(env: Env, rules: Rules, st: State) -> Step<Text>
{
    let checkpoint = st.stack.num;
    let collected = components(env, rules, st, checkpoint, 0);
    settled(
        match collected.out {
            Err(error) => collected.st.fail(error),
            Ok(_) => render_class(env, collected.st, checkpoint),
        },
        checkpoint,
    )
}

/// The state with the tables cut back to what they were before a template name.
pub open spec fn template_restored(
    st: State,
    names_num: usize,
    names_start: usize,
    stack_num: usize,
) -> Step<()> {
    let names = st.names.restored(names_num);
    let after = State {
        names: names.started(names_start),
        stack: st.stack.restored(stack_num),
        ..st
    };
    Step {
        out: match st.names.restore_error(names_num) {
            Some(error) => Err(error),
            None => match names.start_error(names_start) {
                Some(error) => Err(error),
                None => match st.stack.restore_error(stack_num) {
                    Some(error) => Err(error),
                    None => Ok(()),
                },
            },
        },
        st: after,
    }
}

/// A template name: its arguments see only the names learned inside it.
#[verifier::opaque]
pub open spec fn template_name(env: Env, rules: Rules, st: State) -> Step<Text>
{
    let names_num = st.names.num;
    let names_start = st.names.start;
    let stack_num = st.stack.num;
    let body = match st.names.start_error(names_num) {
        Some(error) => st.fail(error),
        None => template_body(
            env,
            rules,
            State { names: st.names.started(names_num), ..st },
        ),
    };
    let restored = template_restored(body.st, names_num, names_start, stack_num);
    match restored.out {
        Err(error) => restored.st.fail(error),
        Ok(_) => match body.out {
            Err(error) => restored.st.fail(error),
            Ok((name, arguments)) => template_text(env, restored.st, name, arguments),
        },
    }
}

/// Renders a name with its template arguments, where it has any.
pub open spec fn template_text(env: Env, st: State, name: Text, arguments: Option<Text>) -> Step<
    Text,
> {
    match arguments {
        Some(arguments) => st.emit(env, name + arguments),
        None => Step { out: Ok(name), st },
    }
}

/// Template arguments that may fail: unless a table could not be restored, a
/// failed list is dropped and what it consumed stays consumed.
pub open spec fn forgiven(step: Typed<Text>) -> Step<Option<Text>> {
    Step {
        out: match step.out {
            Ok(arguments) => Ok(Some(arguments)),
            Err(error) => match error {
                ParseFailure::InvalidReferenceRestore { requested, max } => Err(error),
                ParseFailure::InvalidReferenceStart { requested, max } => Err(error),
                _ => Ok(None),
            },
        },
        st: step.st,
    }
}

/// The parameter types at the start of an argument list that learns its own.
pub open spec fn no_types() -> Option<Table> {
    Some(Table::empty(MAX_BACKREFERENCES))
}

/// A name and its template arguments.
#[verifier::opaque]
pub open spec fn template_body(env: Env, rules: Rules, st: State) -> Step<(Text, Option<Text>)>
{
    let read = st.lift_named(literal(env, st.tape, st.names));
    match read.out {
        Err(error) => read.st.fail(error),
        Ok(name) => {
            let list = forgiven(
                arguments(env, rules, read.st, no_types(), false, '<' as u8, '>' as u8),
            );
            Step {
                out: match list.out {
                    Err(error) => Err(error),
                    Ok(arguments) => Ok((name, arguments)),
                },
                st: list.st,
            }
        },
    }
}

/// A symbol inside a symbol.
pub open spec fn nested_symbol(rules: Rules, st: State) -> Step<NameView> {
    (rules.nested)(st)
}

/// The state in which a nested symbol is parsed: it has a stack of its own.
pub open spec fn nested_start(st: State) -> State {
    State { stack: Table::empty(MAX_BACKREFERENCES), ..st }
}

/// The outcome of a nested symbol that was parsed from `st`. The outer stack
/// comes back, and the names are cut back to those known before.
pub open spec fn nested_end(st: State, parsed: Step<NameView>) -> Step<NameView> {
    let names = parsed.st.names.restored(st.names.num);
    let after = State { names: names.started(st.names.start), stack: st.stack, ..parsed.st };
    match parsed.st.names.restore_error(st.names.num) {
        Some(error) => after.fail(error),
        None => match names.start_error(st.names.start) {
            Some(error) => after.fail(error),
            None => Step { out: parsed.out, st: after },
        },
    }
}

// ---------------------------------------------------------------------------
// Argument lists
// ---------------------------------------------------------------------------

/// An argument list between `open` and `close`. A list of parameters ends with a
/// `Z` of its own.
pub open spec fn arguments(
    env: Env,
    rules: Rules,
    st: State,
    types: Option<Table>,
    z_terminated: bool,
    open: u8,
    close: u8,
) -> Typed<Text>
{
    if open >= 128 || close >= 128 {
        with_types(st.fail(ParseFailure::InvalidArgumentDelimiter { open, close }), types)
    } else {
        argument_list(env, rules, st, types, Seq::empty(), z_terminated, open, close)
    }
}

/// The end of an argument list.
pub open spec fn closed_arguments(
    env: Env,
    st: State,
    list: Seq<Text>,
    z_terminated: bool,
    open: u8,
    close: u8,
) -> Step<Text> {
    let rendered = arguments_text(list, open, close);
    if z_terminated {
        match env.at(st.pos(), 0) {
            None => st.fail(ParseFailure::UnexpectedEnd { offset: st.pos() }),
            Some(found) => if found == 'Z' as u8 {
                st.skip(1).emit(env, rendered)
            } else {
                st.skip(1).fail(
                    ParseFailure::InvalidArgumentListTerminator { offset: st.pos(), found },
                )
            },
        }
    } else {
        st.emit(env, rendered)
    }
}

/// An empty pack in a template argument list.
pub open spec fn empty_pack(env: Env, pos: usize, close: u8) -> bool {
    close == '>' as u8 && env.reads(pos, 0, '$') && env.reads(pos, 1, '$') && (env.reads(
        pos,
        2,
        'V',
    ) || env.reads(pos, 2, 'Z'))
}

/// The arguments from here on, after those in `list`. The list ends with `@`, at
/// the end of the input, with `...`, or with `void` in a list of parameters.
#[verifier::opaque]
pub open spec fn argument_list(
    env: Env,
    rules: Rules,
    st: State,
    types: Option<Table>,
    list: Seq<Text>,
    z_terminated: bool,
    open: u8,
    close: u8,
) -> Typed<Text>
    decreases MAX_ARGUMENTS - list.len(), env.input.len() - st.pos(),
{
    if env.at(st.pos(), 0) is None {
        with_types(closed_arguments(env, st, list, z_terminated, open, close), types)
    } else if env.reads(st.pos(), 0, '@') {
        with_types(closed_arguments(env, st.skip(1), list, z_terminated, open, close), types)
    } else if empty_pack(env, st.pos(), close) && st.pos() <= usize::MAX - 3 {
        argument_list(env, rules, st.skip(3), types, list, z_terminated, open, close)
    } else if list.len() >= MAX_ARGUMENTS {
        with_types(
            st.fail(
                ParseFailure::ArgumentLimitExceeded {
                    attempted: (list.len() + 1) as usize,
                    limit: MAX_ARGUMENTS,
                },
            ),
            types,
        )
    } else if !st.tape.ledger.granted(env.grants, 1) {
        with_types(
            st.paid(st.tape.ledger.after_request(1)).fail(
                ParseFailure::ArgumentCollectionAllocationFailed { additional: 1 },
            ),
            types,
        )
    } else {
        let st1 = st.paid(st.tape.ledger.after_request(1));
        let parsed = datatype(rules, st1, types, true);
        match parsed.out {
            Err(error) => with_types(parsed.st.fail(error), parsed.types),
            Ok(argument) => if z_terminated && argument.left == "void"@ {
                with_types(
                    closed_arguments(env, parsed.st, list, z_terminated, open, close),
                    parsed.types,
                )
            } else {
                let rendered = parsed.st.emit(env, argument.left + argument.right_text());
                match rendered.out {
                    Err(error) => with_types(rendered.st.fail(error), parsed.types),
                    Ok(one) => if argument.left == "..."@ {
                        with_types(
                            closed_arguments(
                                env,
                                rendered.st,
                                list.push(one),
                                z_terminated,
                                open,
                                close,
                            ),
                            parsed.types,
                        )
                    } else {
                        argument_list(
                            env,
                            rules,
                            rendered.st,
                            parsed.types,
                            list.push(one),
                            z_terminated,
                            open,
                            close,
                        )
                    },
                }
            },
        }
    }
}

// ---------------------------------------------------------------------------
// Datatypes
// ---------------------------------------------------------------------------

/// A datatype, one level of nesting deeper.
pub open spec fn datatype(rules: Rules, st: State, types: Option<Table>, in_args: bool) -> Typed<
    TypeView,
> {
    (rules.datatype)(st, types, in_args)
}

/// An unsupported form at this position, or the end of the input.
pub open spec fn unsupported<T>(env: Env, st: State, introducer: &'static str) -> Step<T> {
    match env.at(st.pos(), 0) {
        Some(found) => st.fail(
            ParseFailure::UnsupportedDatatypeForm { offset: st.pos(), found, introducer },
        ),
        None => st.fail(ParseFailure::UnexpectedEnd { offset: st.pos() }),
    }
}

/// What follows is a datatype behind `$` that nests a symbol or another datatype.
pub open spec fn nests_behind_dollar(input: Seq<u8>, pos: usize) -> bool {
    cursor::reads(input, pos, 0, '$') && (cursor::reads(input, pos, 1, '1') || (cursor::reads(
        input,
        pos,
        1,
        '$',
    ) && (cursor::reads(input, pos, 2, 'A') || cursor::reads(input, pos, 2, 'B') || cursor::reads(
        input,
        pos,
        2,
        'C',
    ) || cursor::reads(input, pos, 2, 'Q'))))
}

/// A datatype behind `$` that nests a symbol or another datatype.
#[verifier::opaque]
pub open spec fn dollar_type(
    env: Env,
    rules: Rules,
    st: State,
    types: Option<Table>,
    in_args: bool,
) -> Typed<TypeView> {
    let pos = st.pos();
    if env.reads(pos, 1, '1') {
        symbol_type(env, rules, st.skip(2), types, in_args)
    } else if env.reads(pos, 2, 'A') {
        if env.reads(pos, 3, '6') {
            function_type(env, rules, st.skip(4), types, in_args)
        } else {
            with_types(unsupported(env, st.skip(3), "$$A"), types)
        }
    } else if env.reads(pos, 2, 'B') {
        array_type(env, rules, st.skip(3), types, in_args)
    } else if env.reads(pos, 2, 'C') {
        qualified_type(env, rules, st.skip(3), types, in_args)
    } else {
        modified_type(env, rules, st.skip(3), types, '?' as u8, in_args, Some(" &&"))
    }
}

/// A datatype, by its one-letter code.
#[verifier::opaque]
pub open spec fn coded_type(
    env: Env,
    rules: Rules,
    st: State,
    types: Option<Table>,
    in_args: bool,
) -> Typed<TypeView> {
    let body = st.skip(1);
    match env.at(st.pos(), 0) {
        None => plain_type(env, st, types, in_args),
        Some(code) => match code as char {
            'A' | 'B' => modified_type(env, rules, body, types, code, in_args, None),
            'P' | 'Q' => pointer_type(env, rules, body, types, code, in_args),
            'R' | 'S' => modified_type(
                env,
                rules,
                body,
                types,
                if in_args {
                    code
                } else {
                    'P' as u8
                },
                in_args,
                None,
            ),
            '?' => if in_args {
                template_parameter(env, body, types)
            } else {
                modified_type(env, rules, body, types, code, in_args, None)
            },
            'W' => if env.reads(st.pos(), 1, '4') {
                named_type(env, rules, st.skip(2), "enum ", types, in_args)
            } else {
                with_types(unsupported(env, body, "W"), types)
            },
            'T' => named_type(env, rules, body, "union ", types, in_args),
            'U' => named_type(env, rules, body, "struct ", types, in_args),
            'V' => named_type(env, rules, body, "class ", types, in_args),
            'Y' => named_type(env, rules, body, "cointerface ", types, in_args),
            _ => plain_type(env, st, types, in_args),
        },
    }
}

/// A datatype, at its depth.
pub open spec fn datatype_inner(
    env: Env,
    rules: Rules,
    st: State,
    types: Option<Table>,
    in_args: bool,
) -> Typed<TypeView> {
    if nests_behind_dollar(env.input, st.pos()) {
        dollar_type(env, rules, st, types, in_args)
    } else {
        coded_type(env, rules, st, types, in_args)
    }
}

/// A datatype that needs neither names nor nested types.
pub open spec fn plain_type(env: Env, st: State, types: Option<Table>, in_args: bool) -> Typed<
    TypeView,
> {
    let sorted = simple_type(env, st.tape, types, in_args);
    Typed { out: sorted.out, st: st.on(sorted.tape), types: sorted.types }
}

/// A template parameter by number. `st` stands behind the `?`.
pub open spec fn template_parameter(env: Env, st: State, types: Option<Table>) -> Typed<TypeView> {
    let rendered = st.lift(one_number(env, st.tape, "`template-parameter-"@, "'"@));
    match rendered.out {
        Err(error) => with_types(rendered.st.fail(error), types),
        Ok(left) => recorded(env, rendered.st, types, true, TypeView::plain(left)),
    }
}

/// A pointer. A digit behind `P` or `Q` introduces a pointer to a function.
#[verifier::opaque]
pub open spec fn pointer_type(
    env: Env,
    rules: Rules,
    st: State,
    types: Option<Table>,
    code: u8,
    in_args: bool,
) -> Typed<TypeView>
{
    match env.at(st.pos(), 0) {
        Some(found) if codes::between(found, '0', '9') => if found == '6' as u8 {
            function_pointer(env, rules, st.skip(1), types, code, in_args)
        } else if found == '8' as u8 && code == 'P' as u8 {
            member_pointer(env, rules, st.skip(1), types, in_args)
        } else {
            with_types(
                st.skip(1).fail(
                    ParseFailure::UnsupportedDatatypeForm {
                        offset: st.pos(),
                        found,
                        introducer: if code == 'P' as u8 {
                            "P"
                        } else {
                            "Q"
                        },
                    },
                ),
                types,
            )
        },
        _ => modified_type(
            env,
            rules,
            st,
            types,
            if code == 'Q' as u8 && !in_args {
                'P' as u8
            } else {
                code
            },
            in_args,
            None,
        ),
    }
}

/// The address of a symbol.
#[verifier::opaque]
pub open spec fn symbol_type(
    env: Env,
    rules: Rules,
    st: State,
    types: Option<Table>,
    in_args: bool,
) -> Typed<TypeView>
{
    let nested = nested_symbol(rules, st);
    match nested.out {
        Err(error) => with_types(nested.st.fail(error), types),
        Ok(name) => {
            let rendered = nested.st.emit(env, "&"@ + name.full);
            match rendered.out {
                Err(error) => with_types(rendered.st.fail(error), types),
                Ok(left) => recorded(env, rendered.st, types, in_args, TypeView::plain(left)),
            }
        },
    }
}

/// The flags under which the calling convention of a function type is rendered.
pub open spec fn pointer_flags(flags: u16) -> u16 {
    flags & !UNDNAME_NO_ALLOCATION_LANGUAGE
}

/// The parts of a function type.
pub struct SignatureView {
    pub convention: codes::CallingConvention,
    pub result: TypeView,
    pub arguments: Text,
}

/// A calling convention, a return type and an argument list.
#[verifier::opaque]
pub open spec fn signature(env: Env, rules: Rules, st: State, types: Option<Table>) -> Typed<
    SignatureView,
>
{
    match env.at(st.pos(), 0) {
        None => with_types(
            st.fail(ParseFailure::UnexpectedEnd { offset: st.pos() }),
            types,
        ),
        Some(code) => match codes::convention(code, pointer_flags(env.flags)) {
            Err(error) => with_types(st.skip(1).fail(error), types),
            Ok(convention) => {
                let returned = datatype(rules, st.skip(1), types, false);
                match returned.out {
                    Err(error) => with_types(returned.st.fail(error), returned.types),
                    Ok(result) => {
                        let list = arguments(
                            env,
                            rules,
                            returned.st,
                            returned.types,
                            true,
                            '(' as u8,
                            ')' as u8,
                        );
                        Typed {
                            out: match list.out {
                                Err(error) => Err(error),
                                Ok(arguments) => Ok(
                                    SignatureView { convention, result, arguments },
                                ),
                            },
                            st: list.st,
                            types: list.types,
                        }
                    },
                }
            },
        },
    }
}

/// The blank that follows a calling convention.
pub open spec fn blank_after(convention: Option<&'static str>) -> Text {
    if convention is Some {
        " "@
    } else {
        ""@
    }
}

/// A function type that is not behind a pointer.
#[verifier::opaque]
pub open spec fn function_type(
    env: Env,
    rules: Rules,
    st: State,
    types: Option<Table>,
    in_args: bool,
) -> Typed<TypeView>
{
    let parsed = settled_typed(signature(env, rules, st, types), st.stack.num);
    match parsed.out {
        Err(error) => with_types(parsed.st.fail(error), parsed.types),
        Ok(parts) => {
            let rendered = parsed.st.emit(env, function_text(parts));
            match rendered.out {
                Err(error) => with_types(rendered.st.fail(error), parsed.types),
                Ok(left) => recorded(
                    env,
                    rendered.st,
                    parsed.types,
                    in_args,
                    TypeView::plain(left),
                ),
            }
        },
    }
}

/// A function type as it is rendered.
pub open spec fn function_text(parts: SignatureView) -> Text {
    parts.result.left + (if parts.result.right is None {
        " "@
    } else {
        ""@
    }) + text::literal_text(parts.convention.calling_convention) + blank_after(
        parts.convention.calling_convention,
    ) + text::literal_text(parts.convention.exported) + parts.arguments
        + parts.result.right_text()
}

/// A pointer to a function.
#[verifier::opaque]
pub open spec fn function_pointer(
    env: Env,
    rules: Rules,
    st: State,
    types: Option<Table>,
    code: u8,
    in_args: bool,
) -> Typed<TypeView>
{
    let parsed = function_pointer_inner(env, rules, st, types, code == 'Q' as u8);
    settled_typed(
        match parsed.out {
            Err(error) => with_types(parsed.st.fail(error), parsed.types),
            Ok(pointer) => recorded(env, parsed.st, parsed.types, in_args, pointer),
        },
        st.stack.num,
    )
}

/// A pointer to a function, before it is learned.
#[verifier::opaque]
pub open spec fn function_pointer_inner(
    env: Env,
    rules: Rules,
    st: State,
    types: Option<Table>,
    is_const: bool,
) -> Typed<TypeView>
{
    let parsed = signature(env, rules, st, types);
    match parsed.out {
        Err(error) => with_types(parsed.st.fail(error), parsed.types),
        Ok(parts) => {
            let left = parsed.st.emit(
                env,
                parts.result.left + parts.result.right_text() + " ("@ + text::literal_text(
                    parts.convention.calling_convention,
                ) + (if is_const {
                    "*const"@
                } else {
                    "*"@
                }),
            );
            match left.out {
                Err(error) => with_types(left.st.fail(error), parsed.types),
                Ok(left_text) => {
                    let right = left.st.emit(env, ")"@ + parts.arguments);
                    match right.out {
                        Err(error) => with_types(right.st.fail(error), parsed.types),
                        Ok(right_text) => Typed {
                            out: Ok(TypeView { left: left_text, right: Some(right_text) }),
                            st: right.st,
                            types: parsed.types,
                        },
                    }
                },
            }
        },
    }
}

/// The parts of a pointer to a member function.
pub struct MemberView {
    pub class: Text,
    pub post_modifier: Option<Text>,
    pub signature: SignatureView,
}

/// A qualifier and a pointer keyword as one text, where there is any.
pub open spec fn modifier_text(env: Env, st: State, modifier: Modifier) -> Step<Option<Text>> {
    match (modifier.qualifier, modifier.pointer_modifier) {
        (Some(qualifier), Some(pointer)) => {
            let joined = st.emit(env, qualifier@ + " "@ + pointer@);
            Step {
                out: match joined.out {
                    Err(error) => Err(error),
                    Ok(both) => Ok(Some(both)),
                },
                st: joined.st,
            }
        },
        (Some(qualifier), None) => Step { out: Ok(Some(qualifier@)), st },
        (None, Some(pointer)) => Step { out: Ok(Some(pointer@)), st },
        (None, None) => Step { out: Ok(None), st },
    }
}

/// The class, the qualifiers and the signature of a pointer to a member function.
#[verifier::opaque]
pub open spec fn member_pointer_body(env: Env, rules: Rules, st: State, types: Option<Table>) -> Typed<
    MemberView,
>
{
    let class = class_name(env, rules, st);
    match class.out {
        Err(error) => with_types(class.st.fail(error), types),
        Ok(class_text) => {
            let read = class.st.lift(modifier(env, class.st.tape));
            match read.out {
                Err(error) => with_types(read.st.fail(error), types),
                Ok(qualifiers) => {
                    let post = modifier_text(env, read.st, qualifiers);
                    match post.out {
                        Err(error) => with_types(post.st.fail(error), types),
                        Ok(post_modifier) => {
                            let parsed = signature(env, rules, post.st, types);
                            Typed {
                                out: match parsed.out {
                                    Err(error) => Err(error),
                                    Ok(signature) => Ok(
                                        MemberView { class: class_text, post_modifier, signature },
                                    ),
                                },
                                st: parsed.st,
                                types: parsed.types,
                            }
                        },
                    }
                },
            }
        },
    }
}

/// Renders a pointer to a member function.
pub open spec fn member_pointer_text(env: Env, st: State, parts: MemberView) -> Step<TypeView> {
    let sig = parts.signature;
    let left = st.emit(
        env,
        sig.result.left + sig.result.right_text() + " ("@ + text::literal_text(
            sig.convention.calling_convention,
        ) + blank_after(sig.convention.calling_convention) + parts.class + "::*"@,
    );
    match left.out {
        Err(error) => left.st.fail(error),
        Ok(left_text) => {
            let right = left.st.emit(
                env,
                match parts.post_modifier {
                    Some(modifier) => ")"@ + sig.arguments + " "@ + modifier,
                    None => ")"@ + sig.arguments,
                },
            );
            match right.out {
                Err(error) => right.st.fail(error),
                Ok(right_text) => Step {
                    out: Ok(TypeView { left: left_text, right: Some(right_text) }),
                    st: right.st,
                },
            }
        },
    }
}

/// A pointer to a member function.
#[verifier::opaque]
pub open spec fn member_pointer(
    env: Env,
    rules: Rules,
    st: State,
    types: Option<Table>,
    in_args: bool,
) -> Typed<TypeView>
{
    let parsed = settled_typed(member_pointer_body(env, rules, st, types), st.stack.num);
    match parsed.out {
        Err(error) => with_types(parsed.st.fail(error), parsed.types),
        Ok(parts) => {
            let rendered = member_pointer_text(env, parsed.st, parts);
            match rendered.out {
                Err(error) => with_types(rendered.st.fail(error), parsed.types),
                Ok(pointer) => recorded(env, rendered.st, parsed.types, in_args, pointer),
            }
        },
    }
}

/// A qualified datatype.
#[verifier::opaque]
pub open spec fn qualified_type(
    env: Env,
    rules: Rules,
    st: State,
    types: Option<Table>,
    in_args: bool,
) -> Typed<TypeView>
{
    let read = st.lift(modifier(env, st.tape));
    match read.out {
        Err(error) => with_types(read.st.fail(error), types),
        Ok(qualifiers) => {
            let inner = datatype(rules, read.st, types, in_args);
            match inner.out {
                Err(error) => with_types(inner.st.fail(error), inner.types),
                Ok(subtype) => {
                    let left = inner.st.emit(
                        env,
                        subtype.left + " "@ + text::literal_text(qualifiers.qualifier),
                    );
                    match left.out {
                        Err(error) => with_types(left.st.fail(error), inner.types),
                        Ok(left_text) => recorded(
                            env,
                            left.st,
                            inner.types,
                            in_args,
                            TypeView { left: left_text, right: subtype.right },
                        ),
                    }
                },
            }
        },
    }
}

/// `count` dimensions in brackets, behind `suffix`.
pub open spec fn dimensions(env: Env, tape: Tape, count: nat, suffix: Text) -> Read<Text>
    decreases count,
{
    if count == 0 {
        Read { out: Ok(suffix), tape }
    } else {
        let size = number(env, tape);
        match size.out {
            Err(error) => size,
            Ok(size_text) => {
                let rendered = size.tape.emit(env, suffix + "["@ + size_text + "]"@);
                match rendered.out {
                    Err(error) => rendered,
                    Ok(longer) => dimensions(env, rendered.tape, (count - 1) as nat, longer),
                }
            },
        }
    }
}

/// The number of dimensions, as it is written behind `Y`.
pub open spec fn dimension_number(env: Env, tape: Tape) -> Read<usize> {
    let rendered = number(env, tape);
    Read {
        out: match rendered.out {
            Err(error) => Err(error),
            Ok(count) => dimension_count(vstd::utf8::encode_utf8(count), tape.pos),
        },
        tape: rendered.tape,
    }
}

/// The dimensions of an array type, if it has any. At least one dimension gives
/// a suffix.
pub open spec fn array_suffix(env: Env, tape: Tape) -> Read<Option<Text>> {
    if env.reads(tape.pos, 0, 'Y') {
        let counted = dimension_number(env, tape.skip(1));
        match counted.out {
            Err(error) => Read { out: Err(error), tape: counted.tape },
            Ok(count) => if count > MAX_STANDALONE_ARRAY_DIMENSIONS {
                Read {
                    out: Err(
                        ParseFailure::ArrayDimensionLimitExceeded {
                            attempted: count,
                            limit: MAX_STANDALONE_ARRAY_DIMENSIONS,
                        },
                    ),
                    tape: counted.tape,
                }
            } else if count == 0 {
                Read { out: Ok(None), tape: counted.tape }
            } else {
                let sizes = dimensions(env, counted.tape, count as nat, Seq::empty());
                Read {
                    out: match sizes.out {
                        Err(error) => Err(error),
                        Ok(suffix) => Ok(Some(suffix)),
                    },
                    tape: sizes.tape,
                }
            },
        }
    } else {
        Read { out: Ok(None), tape }
    }
}

/// An array type that is not behind a pointer.
#[verifier::opaque]
pub open spec fn array_type(
    env: Env,
    rules: Rules,
    st: State,
    types: Option<Table>,
    in_args: bool,
) -> Typed<TypeView>
{
    let read = st.lift(array_suffix(env, st.tape));
    match read.out {
        Err(error) => with_types(read.st.fail(error), types),
        Ok(suffix) => {
            let inner = datatype(rules, read.st, types, in_args);
            match inner.out {
                Err(error) => with_types(inner.st.fail(error), inner.types),
                Ok(subtype) => {
                    let left = inner.st.emit(
                        env,
                        match suffix {
                            Some(suffix) => subtype.left + " "@ + suffix,
                            None => subtype.left + " "@,
                        },
                    );
                    match left.out {
                        Err(error) => with_types(left.st.fail(error), inner.types),
                        Ok(left_text) => recorded(
                            env,
                            left.st,
                            inner.types,
                            in_args,
                            TypeView { left: left_text, right: subtype.right },
                        ),
                    }
                },
            }
        },
    }
}

/// An optional keyword behind `code`: the code is consumed, and the keyword
/// appears between `before` and `after` unless keywords are left out.
pub open spec fn optional_keyword(
    env: Env,
    tape: Tape,
    code: char,
    plain: &'static str,
    underscored: &'static str,
    before: Text,
    after: Text,
    otherwise: Text,
) -> Read<Text> {
    if env.reads(tape.pos, 0, code) {
        if env.has(UNDNAME_NO_MS_KEYWORDS) {
            Read { out: Ok(otherwise), tape: tape.skip(1) }
        } else {
            tape.skip(1).emit(
                env,
                before + codes::keyword(env.flags, plain, underscored)@ + after,
            )
        }
    } else {
        Read { out: Ok(otherwise), tape }
    }
}

/// The keywords that extend a pointer: `E` and then `I`.
pub open spec fn pointer_extensions(env: Env, tape: Tape) -> Read<Text> {
    let first = optional_keyword(
        env,
        tape,
        'E',
        "ptr64",
        "__ptr64",
        " "@,
        Seq::empty(),
        Seq::empty(),
    );
    match first.out {
        Err(error) => first,
        Ok(extensions) => optional_keyword(
            env,
            first.tape,
            'I',
            "restrict",
            "__restrict",
            extensions + " "@,
            Seq::empty(),
            extensions,
        ),
    }
}

/// The declarator that a modifier code stands for.
pub open spec fn declarator(env: Env, st: State, code: u8, extensions: Text) -> Step<Text> {
    match code as char {
        'A' => st.emit(env, " &"@ + extensions),
        'B' => st.emit(env, " &"@ + extensions + " volatile"@),
        'P' => st.emit(env, " *"@ + extensions),
        'Q' => st.emit(env, " *"@ + extensions + " const"@),
        'R' => st.emit(env, " *"@ + extensions + " volatile"@),
        'S' => st.emit(env, " *"@ + extensions + " const volatile"@),
        '?' => Step { out: Ok(Seq::empty()), st },
        _ => st.fail(
            ParseFailure::UnsupportedDatatypeForm {
                offset: st.pos(),
                found: code,
                introducer: "modified type",
            },
        ),
    }
}

/// A text without the blank that it may start with.
pub open spec fn without_leading_blank(t: Text) -> Text {
    if t.len() > 0 && t[0] == ' ' {
        t.drop_first()
    } else {
        t
    }
}

/// The most dimensions that are read behind a pointer or a reference.
pub const MAX_POINTED_DIMENSIONS: usize = 128;

/// The dimensions of an array behind a pointer or a reference. `tape` stands
/// before the `Y`.
pub open spec fn pointed_array(
    env: Env,
    tape: Tape,
    rendered: Text,
    qualifier: Option<&'static str>,
) -> Read<Text> {
    let counted = if tape.pos + 1 > env.input.len() {
        Read {
            out: Err(
                ParseFailure::AdvanceOutOfBounds {
                    offset: tape.pos,
                    amount: 1,
                    len: env.input.len() as usize,
                },
            ),
            tape,
        }
    } else {
        dimension_number(env, tape.skip(1))
    };
    match counted.out {
        Err(error) => Read { out: Err(error), tape: counted.tape },
        Ok(count) => {
            let inner = counted.tape.emit(
                env,
                match qualifier {
                    Some(qualifier) => " ("@ + qualifier@ + rendered + ")"@,
                    None => " ("@ + without_leading_blank(rendered) + ")"@,
                },
            );
            match inner.out {
                Err(error) => inner,
                Ok(suffix) => dimensions(
                    env,
                    inner.tape,
                    if count > MAX_POINTED_DIMENSIONS {
                        MAX_POINTED_DIMENSIONS as nat
                    } else {
                        count as nat
                    },
                    suffix,
                ),
            }
        },
    }
}

/// What was read in front of a modified datatype.
pub struct PrefixView {
    pub rendered: Text,
    pub qualifier: Option<&'static str>,
}

/// Everything that stands in front of a modified datatype.
#[verifier::opaque]
pub open spec fn modified_prefix(env: Env, st: State, code: u8) -> Step<PrefixView> {
    let extended = st.lift(pointer_extensions(env, st.tape));
    match extended.out {
        Err(error) => extended.st.fail(error),
        Ok(extensions) => {
            let declared = declarator(env, extended.st, code, extensions);
            match declared.out {
                Err(error) => declared.st.fail(error),
                Ok(rendered) => {
                    let aligned = declared.st.lift(
                        optional_keyword(
                            env,
                            declared.st.tape,
                            'F',
                            "unaligned",
                            "__unaligned",
                            " "@,
                            rendered,
                            rendered,
                        ),
                    );
                    match aligned.out {
                        Err(error) => aligned.st.fail(error),
                        Ok(rendered) => {
                            let read = aligned.st.lift(modifier(env, aligned.st.tape));
                            match read.out {
                                Err(error) => read.st.fail(error),
                                Ok(qualifiers) => if env.reads(read.st.pos(), 0, 'Y') {
                                    let array = read.st.lift(
                                        pointed_array(
                                            env,
                                            read.st.tape,
                                            rendered,
                                            qualifiers.qualifier,
                                        ),
                                    );
                                    Step {
                                        out: match array.out {
                                            Err(error) => Err(error),
                                            Ok(rendered) => Ok(
                                                PrefixView { rendered, qualifier: None },
                                            ),
                                        },
                                        st: array.st,
                                    }
                                } else {
                                    Step {
                                        out: Ok(
                                            PrefixView {
                                                rendered,
                                                qualifier: qualifiers.qualifier,
                                            },
                                        ),
                                        st: read.st,
                                    }
                                },
                            }
                        },
                    }
                },
            }
        },
    }
}

/// A datatype behind a pointer, a reference or a qualifier, as it is rendered.
/// Outside argument lists a star follows a star without a blank.
pub open spec fn modified_text(prefix: PrefixView, subtype: TypeView, in_args: bool) -> Text {
    match prefix.qualifier {
        Some(qualifier) => subtype.left + " "@ + qualifier@ + prefix.rendered,
        None => if !in_args && " *"@.is_prefix_of(prefix.rendered) && subtype.left.len() > 0
            && subtype.left.last() == '*' {
            subtype.left + without_leading_blank(prefix.rendered)
        } else {
            subtype.left + prefix.rendered
        },
    }
}

/// A datatype behind a pointer, a reference or a qualifier, before it is learned.
#[verifier::opaque]
pub open spec fn modified_inner(
    env: Env,
    rules: Rules,
    st: State,
    types: Option<Table>,
    code: u8,
    in_args: bool,
) -> Typed<TypeView>
{
    let read = modified_prefix(env, st, code);
    match read.out {
        Err(error) => with_types(read.st.fail(error), types),
        Ok(prefix) => {
            let inner = datatype(rules, read.st, types, false);
            match inner.out {
                Err(error) => with_types(inner.st.fail(error), inner.types),
                Ok(subtype) => {
                    let left = inner.st.emit(env, modified_text(prefix, subtype, in_args));
                    Typed {
                        out: match left.out {
                            Err(error) => Err(error),
                            Ok(left_text) => Ok(
                                TypeView { left: left_text, right: subtype.right },
                            ),
                        },
                        st: left.st,
                        types: inner.types,
                    }
                },
            }
        },
    }
}

/// A modified datatype with its final suffix, learned where that is asked for.
pub open spec fn finished(
    env: Env,
    st: State,
    types: Option<Table>,
    in_args: bool,
    record: bool,
    suffix: Option<&'static str>,
    parsed: TypeView,
) -> Typed<TypeView> {
    let suffixed = match suffix {
        Some(suffix) => {
            let left = st.emit(env, parsed.left + suffix@);
            Step {
                out: match left.out {
                    Err(error) => Err(error),
                    Ok(left_text) => Ok(TypeView { left: left_text, right: parsed.right }),
                },
                st: left.st,
            }
        },
        None => Step { out: Ok(parsed), st },
    };
    match suffixed.out {
        Err(error) => with_types(suffixed.st.fail(error), types),
        Ok(datatype) => if record {
            recorded(env, suffixed.st, types, in_args, datatype)
        } else {
            with_types(suffixed, types)
        },
    }
}

/// A datatype behind a pointer, a reference or a qualifier. The stack is left as
/// it was found.
#[verifier::opaque]
pub open spec fn modified(
    env: Env,
    rules: Rules,
    st: State,
    types: Option<Table>,
    code: u8,
    in_args: bool,
    record: bool,
    suffix: Option<&'static str>,
) -> Typed<TypeView>
{
    let parsed = modified_inner(env, rules, st, types, code, in_args);
    settled_typed(
        match parsed.out {
            Err(error) => with_types(parsed.st.fail(error), parsed.types),
            Ok(datatype) => finished(
                env,
                parsed.st,
                parsed.types,
                in_args,
                record,
                suffix,
                datatype,
            ),
        },
        st.stack.num,
    )
}

/// A modified datatype that is learned.
#[verifier::inline]
pub open spec fn modified_type(
    env: Env,
    rules: Rules,
    st: State,
    types: Option<Table>,
    code: u8,
    in_args: bool,
    suffix: Option<&'static str>,
) -> Typed<TypeView>
{
    modified(env, rules, st, types, code, in_args, true, suffix)
}

/// A datatype with a name of its own.
#[verifier::opaque]
pub open spec fn named_type(
    env: Env,
    rules: Rules,
    st: State,
    prefix: &'static str,
    types: Option<Table>,
    in_args: bool,
) -> Typed<TypeView>
{
    let class = class_name(env, rules, st);
    match class.out {
        Err(error) => with_types(class.st.fail(error), types),
        Ok(name) => if env.has(UNDNAME_NO_COMPLEX_TYPE) {
            recorded(env, class.st, types, in_args, TypeView::plain(name))
        } else {
            let rendered = class.st.emit(env, prefix@ + name);
            match rendered.out {
                Err(error) => with_types(rendered.st.fail(error), types),
                Ok(left) => recorded(env, rendered.st, types, in_args, TypeView::plain(left)),
            }
        },
    }
}

/// What nesting denotes where it is too deep.
pub open spec fn too_deep(attempted: usize) -> Rules {
    let error = ParseFailure::NestingLimitExceeded { attempted, limit: MAX_MSVC_NESTING_DEPTH };
    Rules {
        datatype: |st: State, types: Option<Table>, in_args: bool|
            with_types(st.fail(error), types),
        nested: |st: State| nested_end(st, nested_start(st).fail(error)),
    }
}

/// What nesting denotes at depth `d`.
#[verifier::opaque]
pub open spec fn rules(env: Env, d: usize) -> Rules
    decreases room(d),
{
    if d == usize::MAX {
        too_deep(usize::MAX)
    } else if d + 1 > MAX_MSVC_NESTING_DEPTH {
        too_deep((d + 1) as usize)
    } else {
        let inner = rules(env, (d + 1) as usize);
        Rules {
            datatype: |st: State, types: Option<Table>, in_args: bool|
                datatype_inner(env, inner, st, types, in_args),
            nested: |st: State| nested_end(st, symbol(env, inner, nested_start(st))),
        }
    }
}

// ---------------------------------------------------------------------------
// Symbols
// ---------------------------------------------------------------------------

/// A rendered name with its selector, or why the two do not fit.
pub open spec fn named(st: State, full: Text) -> Step<NameView> {
    Step {
        out: match function_name::name_of(full, st.name_pos) {
            Ok(name) => Ok(name),
            Err(error) => Err(ParseFailure::FunctionNameValidation(error)),
        },
        st,
    }
}

/// A symbol with a fresh stack.
pub open spec fn top_level(
    env: Env,
    rules: Rules,
    st: State,
    reject_no_arguments: bool,
    entry: TopLevel,
) -> Step<NameView>
{
    if reject_no_arguments && env.has(UNDNAME_NO_ARGUMENTS) {
        st.fail(ParseFailure::UnsupportedNoArguments { offset: st.pos() })
    } else if st.stack.num != 0 {
        st.fail(ParseFailure::NonEmptyTopLevelStack { num: st.stack.num })
    } else {
        settled(
            match entry {
                TopLevel::Symbol => symbol_inner(env, rules, st),
                TopLevel::OrdinaryData => ordinary_data(env, rules, st),
                TopLevel::OrdinaryMethod => ordinary_method(env, rules, st),
                TopLevel::OperatorMethod => operator_symbol(env, rules, st),
            },
            0,
        )
    }
}

/// A whole symbol.
#[verifier::opaque]
pub open spec fn symbol(env: Env, rules: Rules, st: State) -> Step<NameView>
{
    top_level(env, rules, st, true, TopLevel::Symbol)
}

/// The components of a top-level name that is neither an operator nor a template.
#[verifier::opaque]
pub open spec fn ordinary_name(env: Env, rules: Rules, st: State) -> Step<()>
{
    if !env.reads(st.pos(), 0, '?') {
        st.fail(
            ParseFailure::InvalidMsvcPrefix { offset: st.pos(), found: env.at(st.pos(), 0) },
        )
    } else {
        let body = st.skip(1);
        match env.at(body.pos(), 0) {
            Some(found) if found == '?' as u8 || found == '$' as u8 => body.fail(
                ParseFailure::UnsupportedTopLevelName { offset: body.pos(), found },
            ),
            _ => components(env, rules, body, 0, 0),
        }
    }
}

/// A variable with an ordinary name.
pub open spec fn ordinary_data(env: Env, rules: Rules, st: State) -> Step<NameView>
{
    let name = ordinary_name(env, rules, st);
    match name.out {
        Err(error) => name.st.fail(error),
        Ok(_) => data_signature(env, rules, name.st),
    }
}

/// A function with an ordinary name.
pub open spec fn ordinary_method(env: Env, rules: Rules, st: State) -> Step<NameView>
{
    let name = ordinary_name(env, rules, st);
    match name.out {
        Err(error) => name.st.fail(error),
        Ok(_) => method_signature(env, rules, name.st, false, false),
    }
}

/// The name of a function template instance. It does not count as a name that
/// back-references reach.
#[verifier::opaque]
pub open spec fn function_template_name(env: Env, rules: Rules, st: State) -> Step<()>
{
    let collected = components(env, rules, st, 0, 0);
    match collected.out {
        Err(error) => collected.st.fail(error),
        Ok(_) => Step {
            out: match collected.st.names.increment_error() {
                Some(error) => Err(error),
                None => Ok(()),
            },
            st: State { names: collected.st.names.incremented(), ..collected.st },
        },
    }
}

/// The codes of thunks.
pub open spec fn thunk_follows(env: Env, pos: usize) -> bool {
    match env.at(pos, 1) {
        Some(code) => code == 'B' as u8 || code == 'R' as u8 || codes::between(code, '0', '5'),
        None => false,
    }
}

/// A symbol, by what follows its `?`.
#[verifier::opaque]
pub open spec fn symbol_inner(env: Env, rules: Rules, st: State) -> Step<NameView>
{
    let pos = st.pos();
    if !env.reads(pos, 0, '?') {
        st.fail(ParseFailure::InvalidMsvcPrefix { offset: pos, found: env.at(pos, 0) })
    } else if env.reads(pos, 1, '$') {
        let template = template_name(env, rules, st.skip(2));
        match template.out {
            Err(error) => template.st.fail(error),
            Ok(name) => named(template.st, name),
        }
    } else if env.reads(pos, 1, '?') && (!env.reads(pos, 2, '$') || env.reads(pos, 3, '?')) {
        operator_symbol(env, rules, st)
    } else {
        let name = if env.reads(pos, 1, '?') {
            function_template_name(env, rules, st.skip(1))
        } else {
            ordinary_name(env, rules, st)
        };
        match name.out {
            Err(error) => name.st.fail(error),
            Ok(_) => match env.at(name.st.pos(), 0) {
                None => name.st.fail(ParseFailure::UnexpectedEnd { offset: name.st.pos() }),
                Some(found) => if codes::between(found, '0', '9') {
                    data_signature(env, rules, name.st)
                } else if codes::between(found, 'A', 'Z') || (found == '$' as u8 && thunk_follows(
                    env,
                    name.st.pos(),
                )) {
                    method_signature(env, rules, name.st, false, false)
                } else {
                    name.st.fail(
                        ParseFailure::UnsupportedMethodEncoding { offset: name.st.pos(), found },
                    )
                },
            },
        }
    }
}

/// One code of a table of operators. `st` stands before it.
pub open spec fn operator_code(
    env: Env,
    tape: Tape,
    table: spec_fn(char) -> Option<codes::OperatorAction>,
) -> Read<codes::OperatorAction> {
    match env.at(tape.pos, 0) {
        None => Read { out: Err(ParseFailure::UnexpectedEnd { offset: tape.pos }), tape },
        Some(code) => Read {
            out: match table(code as char) {
                Some(action) => Ok(action),
                None => Err(
                    ParseFailure::UnsupportedOperatorCode { offset: tape.pos, found: code },
                ),
            },
            tape: tape.skip(1),
        },
    }
}

/// An operator behind one underscore.
pub open spec fn secondary_action(env: Env, tape: Tape) -> Read<codes::OperatorAction> {
    if env.reads(tape.pos, 0, '_') {
        operator_code(env, tape.skip(1), |code: char| codes::tertiary_operator(code))
    } else if env.reads(tape.pos, 0, 'R') {
        operator_code(env, tape.skip(1), |code: char| codes::rtti_operator(code))
    } else {
        operator_code(env, tape, |code: char| codes::secondary_operator(code))
    }
}

/// An operator.
pub open spec fn operator_action(env: Env, tape: Tape) -> Read<codes::OperatorAction> {
    if env.reads(tape.pos, 0, '_') {
        secondary_action(env, tape.skip(1))
    } else {
        operator_code(env, tape, |code: char| codes::primary_operator(code))
    }
}

/// The name of run-time type information, where it depends on what follows.
#[verifier::opaque]
pub open spec fn rtti_name(env: Env, rules: Rules, st: State, operator: codes::RttiOperator) -> Step<
    Option<Text>,
>
{
    match operator {
        codes::RttiOperator::TypeDescriptor => {
            let parsed = settled_typed(
                datatype(rules, st, no_types(), false),
                st.stack.num,
            );
            match parsed.out {
                Err(error) => parsed.st.fail(error),
                Ok(described) => {
                    let rendered = parsed.st.emit(
                        env,
                        described.left + described.right_text() + " `RTTI Type Descriptor'"@,
                    );
                    Step {
                        out: match rendered.out {
                            Err(error) => Err(error),
                            Ok(name) => Ok(Some(name)),
                        },
                        st: rendered.st,
                    }
                },
            }
        },
        codes::RttiOperator::BaseClassDescriptor => {
            let rendered = st.lift(
                four_numbers(env, st.tape, "`RTTI Base Class Descriptor at ("@, ")'"@),
            );
            Step {
                out: match rendered.out {
                    Err(error) => Err(error),
                    Ok(name) => Ok(Some(name)),
                },
                st: rendered.st,
            }
        },
        _ => Step { out: Ok(None), st },
    }
}

/// The name of code that runs around the lifetime of a variable. The variable is
/// a nested symbol, which is closed by one more byte, or a plain name.
#[verifier::opaque]
pub open spec fn dynamic_name(
    env: Env,
    rules: Rules,
    st: State,
    operator: codes::DynamicOperator,
) -> Step<Text>
{
    let prefix = match operator {
        codes::DynamicOperator::Initializer => "`dynamic initializer for '"@,
        codes::DynamicOperator::AtexitDestructor => "`dynamic atexit destructor for '"@,
    };
    if env.reads(st.pos(), 0, '?') {
        let nested = nested_symbol(rules, st);
        match nested.out {
            Err(error) => nested.st.fail(error),
            Ok(name) => if nested.st.pos() + 1 > env.input.len() {
                nested.st.fail(
                    ParseFailure::AdvanceOutOfBounds {
                        offset: nested.st.pos(),
                        amount: 1,
                        len: env.input.len() as usize,
                    },
                )
            } else {
                nested.st.skip(1).emit(env, prefix + name.full + "''"@)
            },
        }
    } else {
        let read = st.lift_named(literal(env, st.tape, st.names));
        match read.out {
            Err(error) => read.st.fail(error),
            Ok(name) => read.st.emit(env, prefix + name + "''"@),
        }
    }
}

/// The name of an operator before its template arguments: spelled out in the
/// symbol, or fixed.
#[verifier::opaque]
pub open spec fn spelled_name(env: Env, rules: Rules, st: State, action: codes::OperatorAction) -> Step<
    Option<Text>,
>
{
    match action {
        codes::OperatorAction::Rtti(operator) => rtti_name(env, rules, st, operator),
        codes::OperatorAction::Dynamic(operator) => {
            let spelled = dynamic_name(env, rules, st, operator);
            Step {
                out: match spelled.out {
                    Err(error) => Err(error),
                    Ok(name) => Ok(Some(name)),
                },
                st: spelled.st,
            }
        },
        _ => Step { out: Ok(None), st },
    }
}

/// The first of two optional texts.
pub open spec fn either(first: Option<Text>, second: Option<&'static str>) -> Option<Text> {
    match first {
        Some(_) => first,
        None => match second {
            Some(name) => Some(name@),
            None => None,
        },
    }
}

/// The template arguments of an operator, appended to its name. The names that
/// they taught are forgotten, and so is a list that failed.
#[verifier::opaque]
pub open spec fn operator_arguments(
    env: Env,
    rules: Rules,
    st: State,
    action: codes::OperatorAction,
    spelled: Option<Text>,
) -> Step<Option<Text>>
{
    let list = forgiven(arguments(env, rules, st, no_types(), false, '<' as u8, '>' as u8));
    match list.out {
        Err(error) => list.st.fail(error),
        Ok(parsed) => match list.st.names.restore_error(0) {
            Some(error) => list.st.fail(error),
            None => {
                let st1 = State { names: list.st.names.restored(0), ..list.st };
                match parsed {
                    None => Step { out: Ok(spelled), st: st1 },
                    Some(arguments) => match either(spelled, codes::operator_name(action)) {
                        None => Step { out: Ok(Some(arguments)), st: st1 },
                        Some(name) => {
                            let joined = st1.emit(env, name + arguments);
                            Step {
                                out: match joined.out {
                                    Err(error) => Err(error),
                                    Ok(full) => Ok(Some(full)),
                                },
                                st: joined.st,
                            }
                        },
                    },
                }
            },
        },
    }
}

/// Pushes the name of an operator and the components of its scope. A constructor
/// or destructor first gets a placeholder, which the class name then replaces.
#[verifier::opaque]
pub open spec fn operator_scope(
    env: Env,
    rules: Rules,
    st: State,
    action: codes::OperatorAction,
    name: Option<Text>,
) -> Step<()>
{
    let held = if codes::named_after_class(action) {
        st.push_stack(env, "--null--"@)
    } else {
        Step { out: Ok(()), st }
    };
    match held.out {
        Err(error) => held.st.fail(error),
        Ok(_) => {
            let pushed = match either(name, codes::operator_name(action)) {
                Some(name) => held.st.push_stack(env, name),
                None => held,
            };
            match pushed.out {
                Err(error) => pushed.st.fail(error),
                Ok(_) => {
                    let st1 = pushed.st;
                    if env.reads(st1.pos(), 0, '@') {
                        Step { out: Ok(()), st: st1.skip(1) }
                    } else if env.reads(st1.pos(), 0, '$') {
                        st1.fail(
                            ParseFailure::UnsupportedClassComponent {
                                offset: st1.pos(),
                                found: '$' as u8,
                            },
                        )
                    } else {
                        components(env, rules, st1, st1.stack.num, 0)
                    }
                },
            }
        },
    }
}

/// Names a constructor or destructor after its class.
pub open spec fn class_operator(env: Env, st: State, action: codes::OperatorAction) -> Step<()> {
    if !codes::named_after_class(action) {
        Step { out: Ok(()), st }
    } else if st.stack.num <= 1 {
        st.fail(ParseFailure::EmptyClass { offset: st.pos() })
    } else {
        match st.stack.active(1) {
            Err(error) => st.fail(error),
            Ok(class) => {
                let rendered = st.emit(
                    env,
                    if action is Constructor {
                        class
                    } else {
                        "~"@ + class
                    },
                );
                match rendered.out {
                    Err(error) => rendered.st.fail(error),
                    Ok(name) => match rendered.st.stack.replace(0, name) {
                        Err(error) => rendered.st.fail(error),
                        Ok(stack) => Step { out: Ok(()), st: State { stack, ..rendered.st } },
                    },
                }
            },
        }
    }
}

/// What follows the scope of an operator: a variable, or a function.
#[verifier::opaque]
pub open spec fn operator_signature(
    env: Env,
    rules: Rules,
    st: State,
    action: codes::OperatorAction,
) -> Step<NameView>
{
    match env.at(st.pos(), 0) {
        Some(code) if codes::between(code, '0', '9') => data_signature(env, rules, st),
        _ => method_signature(
            env,
            rules,
            st,
            action is Conversion,
            codes::named_after_class(action) || action is Rtti,
        ),
    }
}

/// An operator symbol, from its code on.
#[verifier::opaque]
pub open spec fn operator_body(env: Env, rules: Rules, st: State, template: bool) -> Step<NameView>
{
    let read = st.lift(operator_action(env, st.tape));
    match read.out {
        Err(error) => read.st.fail(error),
        Ok(action) => {
            let spelled = spelled_name(env, rules, read.st, action);
            match spelled.out {
                Err(error) => spelled.st.fail(error),
                Ok(spelled_text) => {
                    let full = if template {
                        operator_arguments(env, rules, spelled.st, action, spelled_text)
                    } else {
                        spelled
                    };
                    match full.out {
                        Err(error) => full.st.fail(error),
                        Ok(name) => match action {
                            codes::OperatorAction::ImmediateString(fixed) => match name {
                                Some(name) => named(full.st, name),
                                None => {
                                    let copied = full.st.emit(env, fixed@);
                                    match copied.out {
                                        Err(error) => copied.st.fail(error),
                                        Ok(name) => named(copied.st, name),
                                    }
                                },
                            },
                            _ => {
                                let scoped = operator_scope(env, rules, full.st, action, name);
                                match scoped.out {
                                    Err(error) => scoped.st.fail(error),
                                    Ok(_) => {
                                        let complete = class_operator(env, scoped.st, action);
                                        match complete.out {
                                            Err(error) => complete.st.fail(error),
                                            Ok(_) => operator_signature(
                                                env,
                                                rules,
                                                complete.st,
                                                action,
                                            ),
                                        }
                                    },
                                }
                            },
                        },
                    }
                },
            }
        },
    }
}

/// A symbol that names an operator.
#[verifier::opaque]
pub open spec fn operator_symbol(env: Env, rules: Rules, st: State) -> Step<NameView>
{
    let pos = st.pos();
    if !env.reads(pos, 0, '?') {
        st.fail(ParseFailure::InvalidMsvcPrefix { offset: pos, found: env.at(pos, 0) })
    } else if env.reads(pos, 1, '?') && env.reads(pos, 2, '$') && env.reads(pos, 3, '?') {
        operator_body(env, rules, st.skip(4), true)
    } else if env.reads(pos, 1, '?') && !env.reads(pos, 2, '$') {
        operator_body(env, rules, st.skip(2), false)
    } else {
        st.skip(1).fail(
            ParseFailure::InvalidOperatorPrefix {
                offset: st.skip(1).pos(),
                found: env.at(pos, 1),
            },
        )
    }
}

// ---------------------------------------------------------------------------
// Variables
// ---------------------------------------------------------------------------

/// The access of a variable.
pub open spec fn data_access(env: Env, code: char) -> Text {
    if env.has(UNDNAME_NO_ACCESS_SPECIFIERS) {
        ""@
    } else {
        match code {
            '0' => "private: "@,
            '1' => "protected: "@,
            '2' => "public: "@,
            _ => ""@,
        }
    }
}

/// The storage of a variable.
pub open spec fn data_member_type(env: Env, code: char) -> Text {
    if !env.has(UNDNAME_NO_MEMBER_TYPE) && (code == '0' || code == '1' || code == '2') {
        "static "@
    } else {
        ""@
    }
}

/// The type of a variable and its qualifiers.
pub struct DataView {
    pub datatype: TypeView,
    pub modifier: Text,
}

/// A datatype and its qualifiers.
#[verifier::opaque]
pub open spec fn typed_data(env: Env, rules: Rules, st: State) -> Step<(TypeView, Modifier)>
{
    let parsed = datatype(rules, st, no_types(), false);
    settled(
        match parsed.out {
            Err(error) => parsed.st.fail(error),
            Ok(datatype) => {
                let read = parsed.st.lift(modifier(env, parsed.st.tape));
                match read.out {
                    Err(error) => read.st.fail(error),
                    Ok(qualifiers) => Step { out: Ok((datatype, qualifiers)), st: read.st },
                }
            },
        },
        st.stack.num,
    )
}

/// What follows the code of a variable.
#[verifier::opaque]
pub open spec fn data_parts(env: Env, rules: Rules, st: State, code: char) -> Step<DataView>
{
    match code {
        '0'..='5' => {
            let parsed = typed_data(env, rules, st);
            match parsed.out {
                Err(error) => parsed.st.fail(error),
                Ok((datatype, qualifiers)) => {
                    let joined = modifier_text(env, parsed.st, qualifiers);
                    Step {
                        out: match joined.out {
                            Err(error) => Err(error),
                            Ok(modifier) => Ok(
                                DataView { datatype, modifier: text::optional_text(modifier) },
                            ),
                        },
                        st: joined.st,
                    }
                },
            }
        },
        '6' | '7' => {
            let read = st.lift(modifier(env, st.tape));
            match read.out {
                Err(error) => read.st.fail(error),
                Ok(qualifiers) => {
                    let modifier = text::literal_text(qualifiers.qualifier);
                    if env.reads(read.st.pos(), 0, '@') {
                        Step {
                            out: Ok(
                                DataView { datatype: TypeView::plain(Seq::empty()), modifier },
                            ),
                            st: read.st,
                        }
                    } else {
                        let class = class_name(env, rules, read.st);
                        match class.out {
                            Err(error) => class.st.fail(error),
                            Ok(name) => {
                                let right = class.st.emit(env, "{for `"@ + name + "'}"@);
                                Step {
                                    out: match right.out {
                                        Err(error) => Err(error),
                                        Ok(right_text) => Ok(
                                            DataView {
                                                datatype: TypeView {
                                                    left: Seq::empty(),
                                                    right: Some(right_text),
                                                },
                                                modifier,
                                            },
                                        ),
                                    },
                                    st: right.st,
                                }
                            },
                        }
                    }
                },
            }
        },
        _ => Step {
            out: Ok(
                DataView { datatype: TypeView::plain(Seq::empty()), modifier: Seq::empty() },
            ),
            st,
        },
    }
}

/// A variable as it is rendered.
pub open spec fn data_text(env: Env, code: char, name: Text, parts: DataView) -> Text {
    let shown = if env.has(UNDNAME_NAME_ONLY) {
        DataView { datatype: TypeView::plain(Seq::empty()), modifier: Seq::empty() }
    } else {
        parts
    };
    let left = shown.datatype.left;
    data_access(env, code) + data_member_type(env, code) + left + (if shown.modifier.len() > 0
        && left.len() > 0 {
        " "@
    } else {
        ""@
    }) + shown.modifier + (if shown.modifier.len() > 0 || left.len() > 0 {
        " "@
    } else {
        ""@
    }) + name + shown.datatype.right_text()
}

/// A variable, from its code on. Its name is on the stack.
#[verifier::opaque]
pub open spec fn data_signature(env: Env, rules: Rules, st: State) -> Step<NameView>
{
    match env.at(st.pos(), 0) {
        None => st.fail(ParseFailure::UnexpectedEnd { offset: st.pos() }),
        Some(code) => if !codes::between(code, '0', '9') {
            st.fail(
                ParseFailure::UnsupportedMethodEncoding { offset: st.pos(), found: code },
            )
        } else {
            let rendered = render_class(env, st, 0);
            match rendered.out {
                Err(error) => rendered.st.fail(error),
                Ok(name) => {
                    let parsed = data_parts(env, rules, rendered.st.skip(1), code as char);
                    match parsed.out {
                        Err(error) => parsed.st.fail(error),
                        Ok(parts) => {
                            let full = parsed.st.emit(
                                env,
                                data_text(env, code as char, name, parts),
                            );
                            match full.out {
                                Err(error) => full.st.fail(error),
                                Ok(full_text) => named(full.st, full_text),
                            }
                        },
                    }
                },
            }
        },
    }
}

// ---------------------------------------------------------------------------
// Functions
// ---------------------------------------------------------------------------

/// A method code that starts with `$`. `tape` stands behind the `$`.
pub open spec fn extended_method_kind(env: Env, tape: Tape) -> Read<codes::MethodKind> {
    let body = tape.skip(1);
    match env.at(tape.pos, 0) {
        None => Read { out: Err(ParseFailure::UnexpectedEnd { offset: tape.pos }), tape },
        Some(code) => match code as char {
            'B' => Read { out: Ok(codes::thunk_kind("", codes::ThunkKind::Vcall)), tape: body },
            'R' => match env.at(body.pos, 0) {
                None => Read {
                    out: Err(ParseFailure::UnexpectedEnd { offset: body.pos }),
                    tape: body,
                },
                Some(subtype) => Read {
                    out: match codes::access_of_thunk(subtype as char) {
                        Some(access) => Ok(
                            codes::thunk_kind(access, codes::ThunkKind::Vtordispex),
                        ),
                        None => Err(
                            ParseFailure::UnsupportedMethodEncoding {
                                offset: body.pos,
                                found: subtype,
                            },
                        ),
                    },
                    tape: body.skip(1),
                },
            },
            _ => Read {
                out: match codes::access_of_thunk(code as char) {
                    Some(access) => Ok(codes::thunk_kind(access, codes::ThunkKind::Vtordisp)),
                    None => Err(
                        ParseFailure::UnsupportedMethodEncoding { offset: tape.pos, found: code },
                    ),
                },
                tape: body,
            },
        },
    }
}

/// A method code.
pub open spec fn method_code(env: Env, tape: Tape) -> Read<codes::MethodKind> {
    match env.at(tape.pos, 0) {
        None => Read { out: Err(ParseFailure::UnexpectedEnd { offset: tape.pos }), tape },
        Some(code) => if codes::between(code, 'A', 'Z') {
            Read { out: Ok(codes::method_kind(code as char)), tape: tape.skip(1) }
        } else if code == '$' as u8 {
            extended_method_kind(env, tape.skip(1))
        } else {
            Read {
                out: Err(
                    ParseFailure::UnsupportedMethodEncoding { offset: tape.pos, found: code },
                ),
                tape: tape.skip(1),
            }
        },
    }
}

/// The name of a thunk: the name of its function and the adjustments it makes.
pub open spec fn thunk_name(env: Env, tape: Tape, name: Text, thunk: codes::ThunkKind) -> Read<
    Text,
> {
    match thunk {
        codes::ThunkKind::Adjustor => one_number(env, tape, name + "`adjustor{"@, "}' "@),
        codes::ThunkKind::Vtordisp => two_numbers(env, tape, name + "`vtordisp{"@, "}' "@),
        codes::ThunkKind::Vtordispex => four_numbers(env, tape, name + "`vtordispex{"@, "}' "@),
        codes::ThunkKind::Vcall => {
            let offset = number(env, tape);
            match offset.out {
                Err(error) => offset,
                Ok(slot) => match env.at(offset.tape.pos, 0) {
                    None => Read {
                        out: Err(ParseFailure::UnexpectedEnd { offset: offset.tape.pos }),
                        tape: offset.tape,
                    },
                    Some(flat) => if flat == 'A' as u8 {
                        offset.tape.skip(1).emit(env, name + "{"@ + slot + "{flat}}' "@)
                    } else {
                        Read {
                            out: Err(
                                ParseFailure::UnsupportedMethodEncoding {
                                    offset: offset.tape.pos,
                                    found: flat,
                                },
                            ),
                            tape: offset.tape.skip(1),
                        }
                    },
                },
            }
        },
    }
}

/// The start of a function: what its code says, its access and its name.
pub struct HeadView {
    pub kind: codes::MethodKind,
    pub access: Text,
    pub name: Text,
}

/// The code of a function, and its name with the adjustments of a thunk.
pub open spec fn method_head(env: Env, st: State) -> Step<HeadView> {
    let read = st.lift(method_code(env, st.tape));
    match read.out {
        Err(error) => read.st.fail(error),
        Ok(kind) => {
            let access = if env.has(UNDNAME_NO_ACCESS_SPECIFIERS) {
                ""@
            } else {
                kind.access@
            };
            let rendered = render_class(env, read.st, 0);
            match rendered.out {
                Err(error) => rendered.st.fail(error),
                Ok(name) => match kind.thunk {
                    None => Step { out: Ok(HeadView { kind, access, name }), st: rendered.st },
                    Some(thunk) => {
                        let marked = rendered.st.emit(env, "[thunk]:"@ + access);
                        match marked.out {
                            Err(error) => marked.st.fail(error),
                            Ok(access) => {
                                let full = marked.st.lift(
                                    thunk_name(env, marked.st.tape, name, thunk),
                                );
                                Step {
                                    out: match full.out {
                                        Err(error) => Err(error),
                                        Ok(name) => Ok(HeadView { kind, access, name }),
                                    },
                                    st: full.st,
                                }
                            },
                        }
                    },
                },
            }
        },
    }
}

/// The qualifiers of `this`, where the function has one and they are shown.
pub open spec fn this_modifier(env: Env, st: State, has_this: bool) -> Step<Option<Text>> {
    if !has_this {
        Step { out: Ok(None), st }
    } else {
        let read = st.lift(modifier(env, st.tape));
        match read.out {
            Err(error) => read.st.fail(error),
            Ok(qualifiers) => if !env.has(UNDNAME_NO_THISTYPE) && (qualifiers.qualifier is Some
                || qualifiers.pointer_modifier is Some) {
                let shown = read.st.emit(
                    env,
                    text::literal_text(qualifiers.qualifier) + " "@ + text::literal_text(
                        qualifiers.pointer_modifier,
                    ),
                );
                Step {
                    out: match shown.out {
                        Err(error) => Err(error),
                        Ok(both) => Ok(Some(both)),
                    },
                    st: shown.st,
                }
            } else {
                Step { out: Ok(None), st: read.st }
            },
        }
    }
}

/// The return type of a function. `@` stands for `void`.
#[verifier::opaque]
pub open spec fn return_type(
    env: Env,
    rules: Rules,
    st: State,
    types: Option<Table>,
    has_return: bool,
) -> Typed<TypeView>
{
    if !has_return {
        Typed { out: Ok(TypeView::plain(Seq::empty())), st, types }
    } else if env.reads(st.pos(), 0, '@') {
        let copied = st.skip(1).emit(env, "void"@);
        Typed {
            out: match copied.out {
                Err(error) => Err(error),
                Ok(left) => Ok(TypeView::plain(left)),
            },
            st: copied.st,
            types,
        }
    } else {
        datatype(rules, st, types, false)
    }
}

/// The name and the return type as they are shown. The target of a conversion
/// moves from the return type into the name.
pub open spec fn shown_return(
    env: Env,
    st: State,
    name: Text,
    result: TypeView,
    cast_operator: bool,
    no_return: bool,
) -> Step<(Text, TypeView)> {
    if cast_operator {
        let joined = st.emit(env, name + result.left + result.right_text());
        Step {
            out: match joined.out {
                Err(error) => Err(error),
                Ok(name) => Ok((name, TypeView::plain(Seq::empty()))),
            },
            st: joined.st,
        }
    } else if env.has(UNDNAME_NO_FUNCTION_RETURNS) || no_return {
        Step { out: Ok((name, TypeView::plain(Seq::empty()))), st }
    } else {
        Step { out: Ok((name, result)), st }
    }
}

/// The argument list of a function that has one.
#[verifier::opaque]
pub open spec fn method_arguments(
    env: Env,
    rules: Rules,
    st: State,
    types: Option<Table>,
    has_arguments: bool,
) -> Step<Text>
{
    if has_arguments {
        let list = settled_typed(
            arguments(env, rules, st, types, true, '(' as u8, ')' as u8),
            st.stack.num,
        );
        Step { out: list.out, st: list.st }
    } else {
        Step { out: Ok(Seq::empty()), st }
    }
}

/// The parts of a function.
pub struct MethodView {
    pub kind: codes::MethodKind,
    pub access: Text,
    pub name: Text,
    pub modifier: Option<Text>,
    pub convention: codes::CallingConvention,
    pub result: TypeView,
    pub arguments: Text,
}

/// What is rendered before the name of a function.
pub open spec fn method_prefix(env: Env, parts: MethodView) -> Text {
    parts.access + (if env.has(UNDNAME_NO_MEMBER_TYPE) {
        ""@
    } else {
        parts.kind.member_type@
    }) + parts.result.left + (if parts.result.left.len() > 0 && parts.result.right is None {
        " "@
    } else {
        ""@
    }) + text::literal_text(parts.convention.calling_convention) + blank_after(
        parts.convention.calling_convention,
    ) + text::literal_text(parts.convention.exported)
}

/// What is rendered from the name of a function on. A name alone shows neither
/// arguments nor qualifiers.
pub open spec fn method_selector(env: Env, parts: MethodView) -> Text {
    let bare = parts.kind.has_arguments && env.has(UNDNAME_NAME_ONLY);
    parts.name + (if bare {
        Seq::empty()
    } else {
        parts.arguments
    }) + (if bare {
        Seq::empty()
    } else {
        text::optional_text(parts.modifier)
    }) + parts.result.right_text()
}

/// Everything that a function signature holds.
#[verifier::opaque]
pub open spec fn method_parts(
    env: Env,
    rules: Rules,
    st: State,
    cast_operator: bool,
    no_return: bool,
) -> Step<MethodView>
{
    let headed = method_head(env, st);
    match headed.out {
        Err(error) => headed.st.fail(error),
        Ok(head) => {
            let qualified = this_modifier(env, headed.st, head.kind.has_this);
            match qualified.out {
                Err(error) => qualified.st.fail(error),
                Ok(modifier) => {
                    let st1 = qualified.st;
                    match env.at(st1.pos(), 0) {
                        None => st1.fail(ParseFailure::UnexpectedEnd { offset: st1.pos() }),
                        Some(code) => match codes::convention(code, env.flags) {
                            Err(error) => st1.skip(1).fail(error),
                            Ok(convention) => {
                                let returned = return_type(
                                    env,
                                    rules,
                                    st1.skip(1),
                                    no_types(),
                                    head.kind.has_return,
                                );
                                match returned.out {
                                    Err(error) => returned.st.fail(error),
                                    Ok(result) => {
                                        let shown = shown_return(
                                            env,
                                            returned.st,
                                            head.name,
                                            result,
                                            cast_operator,
                                            no_return,
                                        );
                                        match shown.out {
                                            Err(error) => shown.st.fail(error),
                                            Ok((name, result)) => {
                                                let list = method_arguments(
                                                    env,
                                                    rules,
                                                    shown.st,
                                                    returned.types,
                                                    head.kind.has_arguments,
                                                );
                                                match list.out {
                                                    Err(error) => list.st.fail(error),
                                                    Ok(arguments) => Step {
                                                        out: Ok(
                                                            MethodView {
                                                                kind: head.kind,
                                                                access: head.access,
                                                                name,
                                                                modifier,
                                                                convention,
                                                                result,
                                                                arguments,
                                                            },
                                                        ),
                                                        st: list.st,
                                                    },
                                                }
                                            },
                                        }
                                    },
                                }
                            },
                        },
                    }
                },
            }
        },
    }
}

/// A function, from its code on. Its name is on the stack. The selector starts at
/// the name.
#[verifier::opaque]
pub open spec fn method_signature(
    env: Env,
    rules: Rules,
    st: State,
    cast_operator: bool,
    no_return: bool,
) -> Step<NameView>
{
    let parsed = method_parts(env, rules, st, cast_operator, no_return);
    match parsed.out {
        Err(error) => parsed.st.fail(error),
        Ok(parts) => {
            let prefix = method_prefix(env, parts);
            let rendered = parsed.st.emit(env, prefix + method_selector(env, parts));
            match rendered.out {
                Err(error) => rendered.st.fail(error),
                Ok(full) => named(
                    State { name_pos: text::byte_width(prefix) as usize, ..rendered.st },
                    full,
                ),
            }
        },
    }
}

/// The state before a symbol.
pub open spec fn initial() -> State {
    State {
        tape: Tape { pos: 0, ledger: Ledger { used: 0, limit: MAX_OUTPUT_BYTES, asked: 0 } },
        names: Table::empty(MAX_BACKREFERENCES),
        stack: Table::empty(MAX_BACKREFERENCES),
        name_pos: 0,
    }
}

/// The flags as the parser uses them: a name alone leaves out everything else.
pub open spec fn effective_flags(flags: u16) -> u16 {
    if flags & UNDNAME_NAME_ONLY != 0 {
        flags | UNDNAME_NO_FUNCTION_RETURNS | UNDNAME_NO_ACCESS_SPECIFIERS
            | UNDNAME_NO_MEMBER_TYPE | UNDNAME_NO_ALLOCATION_LANGUAGE | UNDNAME_NO_COMPLEX_TYPE
    } else {
        flags
    }
}

/// What a symbol denotes, for one course of allocations.
pub open spec fn demangled(input: Seq<u8>, flags: u16, grants: Grants) -> Result<
    NameView,
    ParseFailure,
> {
    if input.len() > MAX_INPUT_BYTES {
        Err(
            ParseFailure::InputLimitExceeded {
                attempted: input.len() as usize,
                limit: MAX_INPUT_BYTES,
            },
        )
    } else {
        let env = Env { input, flags: effective_flags(flags), grants };
        symbol(env, rules(env, 0), initial()).out
    }
}

} // verus!
