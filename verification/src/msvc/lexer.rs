//! Numbers, names, qualifiers and the other constructs without nesting.

use vstd::prelude::*;
use vstd::slice::slice_subrange;
use vstd::string::*;
use vstd::utf8::*;

use crate::cursor::Cursor;
use crate::error::ParseFailure;
use crate::limits::MAX_OUTPUT_BYTES;
use crate::msvc::codes;
use crate::msvc::codes::{extended_primitive_type, ordinary_primitive_type, Modifier};
use crate::msvc::flags::{UNDNAME_NO_LEADING_UNDERSCORES, UNDNAME_NO_MS_KEYWORDS};
use crate::msvc::grammar;
use crate::msvc::grammar::{
    Env, Named, Read, Sorted, State, Step, Tape, TypeView, MAX_ENCODED_NUMBER,
};
use crate::msvc::state;
use crate::msvc::state::{AttemptBudget, Charged, Grants, Ledger, RefArray, Table};
use crate::text;
use crate::text::{ascii_str, byte_len, ends_with_char, same_text, Text};

verus! {

/// A rendered datatype: what stands left of a declared name, and what stands
/// right of it.
#[derive(Debug, Clone, PartialEq, Eq)]
pub struct Datatype {
    pub left: String,
    pub right: Option<String>,
}

impl View for Datatype {
    type V = TypeView;

    open spec fn view(&self) -> TypeView {
        TypeView { left: self.left@, right: text::owned_text(self.right) }
    }
}

/// A result with its datatype taken by its view.
pub open spec fn type_result(r: Result<Datatype, ParseFailure>) -> Result<TypeView, ParseFailure> {
    match r {
        Ok(datatype) => Ok(datatype@),
        Err(error) => Err(error),
    }
}

/// Where a cursor stands and what a budget has spent.
pub open spec fn tape(cursor: &Cursor<'_>, budget: &AttemptBudget) -> Tape {
    Tape { pos: cursor.pos(), ledger: budget.ledger() }
}

/// `after` reads the same input as `before`, and no less of it.
pub open spec fn moved(before: &Cursor<'_>, after: &Cursor<'_>) -> bool {
    after.input() == before.input() && (after.pos() == before.pos() || before.pos() < after.pos()
        <= after.input().len() <= usize::MAX)
}

/// Joins `parts`, within the budget.
pub fn allocate_concat(budget: &mut AttemptBudget, parts: &[&str]) -> (r: Result<
    String,
    ParseFailure,
>)
    ensures
        state::spent(old(budget).ledger(), final(budget).ledger()),
        r matches Ok(output) ==> output@ == text::joined(parts@, parts@.len()),
        r matches Ok(output) ==> final(budget).ledger().used == old(budget).ledger().used
            + text::byte_width(output@),
        forall|g: Grants| #[trigger]
            final(budget).agrees(g) ==> old(budget).agrees(g) && (Charged {
                out: text::text_result(r),
                ledger: final(budget).ledger(),
            }) == old(budget).ledger().produce(g, text::joined(parts@, parts@.len())),
{
    proof {
        reveal(Ledger::produce);
    }
    let mut output_len: usize = 0;
    let mut index: usize = 0;
    while index < parts.len()
        invariant
            index <= parts@.len(),
            output_len == text::byte_width(text::joined(parts@, index as nat)),
            *budget == *old(budget),
        decreases parts@.len() - index,
    {
        proof {
            reveal(Ledger::produce);
            lemma_joined_step(parts@, index as nat);
        }
        let len = byte_len(parts[index]);
        if len > usize::MAX - output_len {
            proof {
                lemma_joined_grows(parts@, (index + 1) as nat, parts@.len());
            }
            return Err(
                ParseFailure::OutputLimitExceeded {
                    attempted: usize::MAX,
                    limit: MAX_OUTPUT_BYTES,
                },
            );
        }
        output_len = output_len + len;
        index += 1;
    }
    let reservation = budget.preflight(output_len)?;
    let mut output = match budget.reserve_text(output_len) {
        Some(output) => output,
        None => return Err(ParseFailure::OutputAllocationFailed { additional: output_len }),
    };
    let mut index: usize = 0;
    let ghost reserved = *budget;
    while index < parts.len()
        invariant
            index <= parts@.len(),
            output@ == text::joined(parts@, index as nat),
            *budget == reserved,
        decreases parts@.len() - index,
    {
        proof {
            lemma_joined_step(parts@, index as nat);
        }
        output.append(parts[index]);
        index += 1;
    }
    budget.commit(reservation);
    Ok(output)
}

/// One more part appends its text.
proof fn lemma_joined_step(parts: Seq<&str>, count: nat)
    requires
        count < parts.len(),
    ensures
        text::joined(parts, count + 1) == text::joined(parts, count) + parts[count as int]@,
        text::byte_width(text::joined(parts, count + 1)) == text::byte_width(
            text::joined(parts, count),
        ) + text::byte_width(parts[count as int]@),
{
    assert(text::joined(parts, count + 1) =~= text::joined(parts, count) + parts[count as int]@);
    text::lemma_byte_width_concat(text::joined(parts, count), parts[count as int]@);
}

/// More parts are no narrower.
proof fn lemma_joined_grows(parts: Seq<&str>, few: nat, many: nat)
    requires
        few <= many <= parts.len(),
    ensures
        text::byte_width(text::joined(parts, few)) <= text::byte_width(text::joined(parts, many)),
    decreases many,
{
    if few < many {
        lemma_joined_grows(parts, few, (many - 1) as nat);
        lemma_joined_step(parts, (many - 1) as nat);
    }
}

/// Reads an encoded number and renders it.
pub fn parse_number(cursor: &mut Cursor<'_>, budget: &mut AttemptBudget) -> (r: Result<
    String,
    ParseFailure,
>)
    ensures
        state::spent(old(budget).ledger(), final(budget).ledger()),
        moved(old(cursor), final(cursor)),
        r is Ok ==> old(cursor).pos() < final(cursor).pos(),
        forall|env: Env|
            env.input == old(cursor).input() && #[trigger] final(budget).agrees(env.grants)
                ==> old(budget).agrees(env.grants) && (Read {
                out: text::text_result(r),
                tape: tape(final(cursor), final(budget)),
            }) == grammar::number(env, tape(old(cursor), old(budget))),
{
    proof {
        reveal(grammar::number);
    }
    let start = cursor.position();
    let negative = if cursor.reads(0, '?') {
        cursor.advance(1)?;
        true
    } else {
        false
    };
    match cursor.peek(0) {
        Some(byte) => match byte as char {
            '0'..='9' => {
                cursor.advance(1)?;
                render_number((byte - '0' as u8) as u32 + 1, negative, budget)
            },
            'A'..='P' => parse_hexadecimal_number(cursor, start, negative, budget),
            _ => Err(
                ParseFailure::InvalidNumberStart { offset: cursor.position(), found: Some(byte) },
            ),
        },
        None => Err(ParseFailure::InvalidNumberStart { offset: cursor.position(), found: None }),
    }
}

/// Reads hexadecimal digits up to their terminator and renders their value.
pub fn parse_hexadecimal_number(
    cursor: &mut Cursor<'_>,
    start: usize,
    negative: bool,
    budget: &mut AttemptBudget,
) -> (r: Result<String, ParseFailure>)
    ensures
        state::spent(old(budget).ledger(), final(budget).ledger()),
        moved(old(cursor), final(cursor)),
        r is Ok ==> old(cursor).pos() < final(cursor).pos(),
        forall|env: Env|
            env.input == old(cursor).input() && #[trigger] final(budget).agrees(env.grants)
                ==> old(budget).agrees(env.grants) && (Read {
                out: text::text_result(r),
                tape: tape(final(cursor), final(budget)),
            }) == grammar::hexadecimal(env, tape(old(cursor), old(budget)), start, 0, negative),
{
    let mut value: u32 = 0;
    loop
        invariant
            cursor.input() == old(cursor).input(),
            old(cursor).pos() <= cursor.pos(),
            *budget == *old(budget),
            value <= MAX_ENCODED_NUMBER,
            forall|env: Env|
                env.input == old(cursor).input() ==> #[trigger] grammar::hexadecimal(
                    env,
                    tape(old(cursor), old(budget)),
                    start,
                    0,
                    negative,
                ) == grammar::hexadecimal(env, tape(cursor, budget), start, value as nat, negative),
        decreases cursor.input().len() - cursor.pos(),
    {
        match cursor.peek(0) {
            Some(byte) => {
                let offset = cursor.position();
                if byte >= 'A' as u8 && byte <= 'P' as u8 {
                    cursor.advance(1)?;
                    let digit: u32 = (byte - 'A' as u8) as u32;
                    let next: u64 = value as u64 * 16 + digit as u64;
                    if next > MAX_ENCODED_NUMBER as u64 {
                        return Err(
                            ParseFailure::NumberOverflow { start, offset, max: MAX_ENCODED_NUMBER },
                        );
                    }
                    value = next as u32;
                } else if byte == '@' as u8 {
                    cursor.advance(1)?;
                    return render_number(value, negative, budget);
                } else {
                    return Err(
                        ParseFailure::MissingNumberTerminator { offset, found: Some(byte) },
                    );
                }
            },
            None => {
                return Err(
                    ParseFailure::MissingNumberTerminator {
                        offset: cursor.position(),
                        found: None,
                    },
                );
            },
        }
    }
}

/// Ten to the power of `exponent`.
spec fn power_of_ten(exponent: nat) -> nat
    decreases exponent,
{
    if exponent == 0 {
        1
    } else {
        10 * power_of_ten((exponent - 1) as nat)
    }
}

/// Renders `value` in decimal, behind a minus sign if it is negative.
pub fn render_number(value: u32, negative: bool, budget: &mut AttemptBudget) -> (r: Result<
    String,
    ParseFailure,
>)
    ensures
        state::spent(old(budget).ledger(), final(budget).ledger()),
        forall|g: Grants| #[trigger]
            final(budget).agrees(g) ==> old(budget).agrees(g) && (Charged {
                out: text::text_result(r),
                ledger: final(budget).ledger(),
            }) == old(budget).ledger().produce(g, grammar::number_text(value as nat, negative)),
{
    let mut bytes: [u8; 11] = [0;11];
    let mut start: usize = 11;
    let mut rest: u32 = value;
    let mut more = true;
    proof {
        reveal_with_fuel(power_of_ten, 11);
        assert(text::ascii(bytes@.subrange(11, 11)) =~= Seq::<char>::empty());
    }
    while more
        invariant
            1 <= start <= 11,
            more == (start == 11 || rest > 0),
            rest < power_of_ten((start - 1) as nat),
            forall|i: int| start <= i < 11 ==> #[trigger] bytes@[i] < 128,
            grammar::decimal(value as nat) == (if more {
                grammar::decimal(rest as nat)
            } else {
                Seq::empty()
            }) + text::ascii(bytes@.subrange(start as int, 11)),
        decreases start,
    {
        let digit: u8 = (rest % 10) as u8;
        let ghost tail = bytes@.subrange(start as int, 11);
        let ghost shorter = if rest < 10 {
            Seq::empty()
        } else {
            grammar::decimal((rest / 10) as nat)
        };
        start = start - 1;
        bytes[start] = '0' as u8 + digit;
        proof {
            let shown = bytes@.subrange(start as int, 11);
            let figure = (('0' as nat) + digit) as char;
            assert(shown =~= seq![('0' as u8 + digit) as u8] + tail);
            assert(text::ascii(shown) =~= seq![figure] + text::ascii(tail));
            assert(grammar::decimal(rest as nat) =~= shorter + seq![figure]);
            assert(shorter + seq![figure] + text::ascii(tail) =~= shorter + text::ascii(shown));
        }
        rest = rest / 10;
        more = rest > 0;
    }
    assert(grammar::decimal(value as nat) =~= text::ascii(bytes@.subrange(start as int, 11)));
    if negative {
        let ghost tail = bytes@.subrange(start as int, 11);
        start = start - 1;
        bytes[start] = '-' as u8;
        proof {
            let shown = bytes@.subrange(start as int, 11);
            assert(shown =~= seq!['-' as u8] + tail);
            assert(text::ascii(shown) =~= seq!['-'] + text::ascii(tail));
        }
    }
    let rendered = slice_subrange(bytes.as_slice(), start, 11);
    match ascii_str(rendered) {
        Some(rendered) => budget.copy_string(rendered),
        None => Err(ParseFailure::InvalidLiteralRange { start, end: 11 }),
    }
}

/// Reports whether `byte` can stand in a name.
pub fn is_literal_byte(byte: u8) -> (yes: bool)
    ensures
        yes == grammar::literal_byte(byte),
{
    match byte as char {
        '0'..='9' | 'A'..='Z' | 'a'..='z' | '_' | '$' | '<' | '>' => true,
        _ => false,
    }
}

/// Reads a name, learns it and returns a copy of it.
pub fn parse_literal_string(
    cursor: &mut Cursor<'_>,
    names: &mut RefArray,
    budget: &mut AttemptBudget,
) -> (r: Result<String, ParseFailure>)
    ensures
        r matches Ok(output) ==> text::byte_width(output@) <= final(budget).ledger().used,
        state::spent(old(budget).ledger(), final(budget).ledger()),
        state::grown(old(names)@, final(names)@),
        final(names)@.start == old(names)@.start,
        moved(old(cursor), final(cursor)),
        r is Ok ==> old(cursor).pos() < final(cursor).pos(),
        forall|env: Env|
            env.input == old(cursor).input() && #[trigger] final(budget).agrees(env.grants)
                ==> old(budget).agrees(env.grants) && (Named {
                out: text::text_result(r),
                tape: tape(final(cursor), final(budget)),
                names: final(names)@,
            }) == grammar::literal(env, tape(old(cursor), old(budget)), old(names)@),
{
    proof {
        reveal(grammar::literal);
    }
    let start = cursor.position();
    loop
        invariant
            start == old(cursor).pos(),
            cursor.input() == old(cursor).input(),
            start <= cursor.pos(),
            *budget == *old(budget),
            *names == *old(names),
            forall|i: int|
                start <= i < cursor.pos() ==> grammar::literal_byte(#[trigger] cursor.input()[i]),
            grammar::literal_run(cursor.input(), start as int) == cursor.pos() - start
                + grammar::literal_run(cursor.input(), cursor.pos() as int),
        decreases cursor.input().len() - cursor.pos(),
    {
        proof {
            reveal(grammar::literal);
        }
        let found = cursor.peek(0);
        let end = cursor.position();
        match found {
            Some(byte) => {
                if byte == '@' as u8 && end > start {
                    cursor.advance(1)?;
                    let bytes = match cursor.bytes(start, end) {
                        Some(bytes) => bytes,
                        None => return Err(ParseFailure::InvalidLiteralRange { start, end }),
                    };
                    let literal = match ascii_str(bytes) {
                        Some(literal) => literal,
                        None => return Err(ParseFailure::InvalidLiteralRange { start, end }),
                    };
                    names.push(literal, budget)?;
                    return budget.copy_string(literal);
                }
                if !is_literal_byte(byte) {
                    return Err(ParseFailure::InvalidLiteral { offset: end, found });
                }
                cursor.advance(1)?;
            },
            None => {
                return Err(ParseFailure::InvalidLiteral { offset: end, found });
            },
        }
    }
}

/// Reads a qualifier and an optional pointer keyword.
pub fn parse_modifier(cursor: &mut Cursor<'_>, flags: u16) -> (r: Result<Modifier, ParseFailure>)
    ensures
        moved(old(cursor), final(cursor)),
        r is Ok ==> old(cursor).pos() < final(cursor).pos(),
        (r, final(cursor).pos()) == grammar::modifier_at(
            old(cursor).input(),
            flags,
            old(cursor).pos(),
        ),
{
    let pointer_modifier = if cursor.reads(0, 'E') {
        cursor.advance(1)?;
        if flags & UNDNAME_NO_MS_KEYWORDS != 0 {
            None
        } else if flags & UNDNAME_NO_LEADING_UNDERSCORES != 0 {
            Some("ptr64")
        } else {
            Some("__ptr64")
        }
    } else {
        None
    };
    let offset = cursor.position();
    let code = cursor.next()?;
    let qualifier = match code as char {
        'A' => None,
        'B' => Some("const"),
        'C' => Some("volatile"),
        'D' => Some("const volatile"),
        _ => return Err(ParseFailure::InvalidModifier { offset, found: code }),
    };
    Ok(Modifier { qualifier, pointer_modifier })
}

/// The number of array dimensions that a rendered number announces.
pub fn parse_array_dimension_count(rendered: &str, offset: usize) -> (r: Result<
    usize,
    ParseFailure,
>)
    ensures
        r == grammar::dimension_count(encode_utf8(rendered@), offset),
{
    let bytes = rendered.as_bytes();
    let negative = bytes.len() > 0 && bytes[0] == '-' as u8;
    let first: usize = if negative {
        1
    } else {
        0
    };
    let ghost digits = bytes@.skip(first as int);
    assert(digits =~= if negative {
        bytes@.drop_first()
    } else {
        bytes@
    });
    let mut value: u32 = 0;
    let mut index: usize = first;
    proof {
        assert(digits.take(0) =~= Seq::<u8>::empty());
    }
    while index < bytes.len()
        invariant
            first <= index <= bytes@.len(),
            digits == bytes@.skip(first as int),
            value <= MAX_ENCODED_NUMBER,
            grammar::decimal_value(digits.take(index - first)) == Some(value as nat),
            negative == (bytes@.len() > 0 && bytes@[0] == '-' as u8),
            digits == (if negative {
                bytes@.drop_first()
            } else {
                bytes@
            }),
            bytes@ == encode_utf8(rendered@),
        decreases bytes@.len() - index,
    {
        let byte = bytes[index];
        let ghost read = index - first;
        assert(digits.take(read + 1).drop_last() =~= digits.take(read));
        assert(digits.take(read + 1).last() == byte);
        if byte < '0' as u8 || byte > '9' as u8 {
            proof {
                assert(grammar::decimal_value(digits.take(read + 1)) is None);
                lemma_decimal_prefix(digits, (read + 1) as nat);
            }
            return Err(ParseFailure::InvalidArrayDimensionCount { offset });
        }
        let next: u64 = value as u64 * 10 + (byte - '0' as u8) as u64;
        if next > MAX_ENCODED_NUMBER as u64 {
            proof {
                assert(grammar::decimal_value(digits.take(read + 1)) == Some(next as nat));
                lemma_decimal_prefix(digits, (read + 1) as nat);
            }
            return Err(ParseFailure::InvalidArrayDimensionCount { offset });
        }
        value = next as u32;
        index += 1;
    }
    assert(digits.take(index - first) =~= digits);
    if negative && value != 0 {
        return Err(
            ParseFailure::NegativeArrayDimensionCount { offset, value: -(value as i32) },
        );
    }
    Ok(value as usize)
}

/// A prefix that is no number, or too large a number, makes the whole so.
proof fn lemma_decimal_prefix(digits: Seq<u8>, count: nat)
    requires
        count <= digits.len(),
    ensures
        match (grammar::decimal_value(digits.take(count as int)), grammar::decimal_value(digits)) {
            (None, whole) => whole is None,
            (Some(prefix), Some(whole)) => prefix <= whole,
            (Some(_), None) => true,
        },
    decreases digits.len() - count,
{
    if count == digits.len() {
        assert(digits.take(count as int) =~= digits);
    } else {
        lemma_decimal_prefix(digits, count + 1);
        let longer = digits.take(count as int + 1);
        assert(longer.drop_last() =~= digits.take(count as int));
    }
}

/// The rendered width of a qualified name with one more component.
pub fn checked_class_output_len(
    current_len: usize,
    component_len: usize,
    has_previous: bool,
) -> (r: Result<usize, ParseFailure>)
    ensures
        r == grammar::class_width(current_len, component_len as nat, has_previous),
{
    let separator: usize = if has_previous {
        2
    } else {
        0
    };
    let too_long = Err(
        ParseFailure::OutputLimitExceeded { attempted: usize::MAX, limit: MAX_OUTPUT_BYTES },
    );
    let output_len = match current_len.checked_add(component_len) {
        Some(length) => match length.checked_add(separator) {
            Some(output_len) => output_len,
            None => return too_long,
        },
        None => return too_long,
    };
    if output_len > MAX_OUTPUT_BYTES {
        return Err(
            ParseFailure::OutputLimitExceeded { attempted: output_len, limit: MAX_OUTPUT_BYTES },
        );
    }
    Ok(output_len)
}

/// The width that was counted for some components is that of their rendering.
proof fn lemma_stacked_width(stack: Table, start: usize, end: usize)
    requires
        start <= end <= stack.num,
        grammar::stacked_width(stack, start, end) is Ok,
    ensures
        end <= stack.slots.len() || start == end,
        grammar::stacked_width(stack, start, end)->Ok_0 == text::byte_width(
            grammar::qualified(stack.slots, start as int, end as int),
        ),
    decreases end,
{
    if start < end {
        let last = (end - 1) as usize;
        lemma_stacked_width(stack, start, last);
        if last > start {
            reveal_strlit("::");
            let inner = grammar::qualified(stack.slots, start as int, last as int);
            let component = stack.slots[last as int];
            assert(grammar::qualified(stack.slots, start as int, end as int) == component + "::"@
                + inner);
            text::lemma_byte_width_concat(component + "::"@, inner);
            text::lemma_byte_width_concat(component, "::"@);
            assert(is_ascii_chars("::"@));
            is_ascii_chars_encode_utf8("::"@);
        }
    } else {
        assert(grammar::qualified(stack.slots, start as int, end as int) =~= Seq::empty());
    }
}

/// A failure among the first components is the failure of all of them.
proof fn lemma_stacked_failure(stack: Table, start: usize, few: usize, many: usize)
    requires
        start <= few <= many,
        grammar::stacked_width(stack, start, few) is Err,
    ensures
        grammar::stacked_width(stack, start, many) == grammar::stacked_width(stack, start, few),
    decreases many,
{
    if few < many {
        lemma_stacked_failure(stack, start, few, (many - 1) as usize);
    }
}

/// Appending an outer component to a name rendered from the inside.
proof fn lemma_qualified_outer(slots: Seq<Text>, start: int, middle: int, end: int)
    requires
        start < middle < end,
    ensures
        grammar::qualified(slots, start, end) == grammar::qualified(slots, middle, end) + "::"@
            + grammar::qualified(slots, start, middle),
    decreases end - middle,
{
    if end > middle + 1 {
        lemma_qualified_outer(slots, start, middle, end - 1);
        let inner = grammar::qualified(slots, middle, end - 1);
        let outer = grammar::qualified(slots, start, middle);
        assert(slots[end - 1] + "::"@ + (inner + "::"@ + outer) =~= slots[end - 1] + "::"@ + inner
            + "::"@ + outer);
    } else {
        assert(grammar::qualified(slots, middle, end) == slots[middle]);
    }
}

/// Renders the active components of `stack` from `start` on, innermost first.
pub fn render_class_name(stack: &RefArray, start: usize, budget: &mut AttemptBudget) -> (r: Result<
    String,
    ParseFailure,
>)
    ensures
        state::spent(old(budget).ledger(), final(budget).ledger()),
        forall|env: Env| #[trigger]
            final(budget).agrees(env.grants) ==> old(budget).agrees(env.grants) && (Read {
                out: text::text_result(r),
                tape: (Tape { pos: 0, ledger: final(budget).ledger() }),
            }) == grammar::class_text(env, old(budget).ledger(), stack@, start),
{
    proof {
        reveal(Ledger::produce);
    }
    let end = stack.logical_num();
    if start > end {
        return Err(ParseFailure::ActiveReferenceOutOfRange { index: start, num: end });
    }
    let mut output_len: usize = 0;
    let mut index: usize = start;
    while index < end
        invariant
            start <= index <= end,
            end == stack@.num,
            *budget == *old(budget),
            grammar::stacked_width(stack@, start, index) == Ok::<usize, ParseFailure>(output_len),
        decreases end - index,
    {
        let component = match stack.active_absolute_reference(index) {
            Ok(component) => component,
            Err(error) => {
                proof {
                    lemma_stacked_failure(stack@, start, (index + 1) as usize, end);
                }
                return Err(error);
            },
        };
        output_len = match checked_class_output_len(output_len, byte_len(component), index > start) {
            Ok(output_len) => output_len,
            Err(error) => {
                proof {
                    lemma_stacked_failure(stack@, start, (index + 1) as usize, end);
                }
                return Err(error);
            },
        };
        index += 1;
    }
    proof {
        lemma_stacked_width(stack@, start, end);
    }
    let reservation = budget.preflight(output_len)?;
    let mut rendered = match budget.reserve_text(output_len) {
        Some(rendered) => rendered,
        None => return Err(ParseFailure::OutputAllocationFailed { additional: output_len }),
    };
    let ghost reserved = *budget;
    let mut index: usize = end;
    assert(grammar::qualified(stack@.slots, end as int, end as int) =~= Seq::empty());
    while index > start
        invariant
            start <= index <= end,
            end == stack@.num,
            end <= stack@.slots.len() || start == end,
            *budget == reserved,
            rendered@ == grammar::qualified(stack@.slots, index as int, end as int),
        decreases index,
    {
        if index < end {
            rendered.append("::");
        }
        index = index - 1;
        let component = match stack.active_absolute_reference(index) {
            Ok(component) => component,
            Err(error) => return Err(error),
        };
        rendered.append(component);
        proof {
            if index + 1 < end {
                lemma_qualified_outer(stack@.slots, index as int, index + 1, end as int);
                assert(grammar::qualified(stack@.slots, index as int, index + 1)
                    == stack@.slots[index as int]);
            } else {
                assert(rendered@ =~= stack@.slots[index as int]);
            }
        }
    }
    budget.commit(reservation);
    Ok(rendered)
}

/// Reads a datatype that needs neither names nor nested types.
pub fn parse_datatype(
    cursor: &mut Cursor<'_>,
    parameter_types: Option<&mut RefArray>,
    in_args: bool,
    budget: &mut AttemptBudget,
) -> (r: Result<Datatype, ParseFailure>)
    ensures
        state::spent(old(budget).ledger(), final(budget).ledger()),
        moved(old(cursor), final(cursor)),
        r is Ok ==> old(cursor).pos() < final(cursor).pos(),
        forall|env: Env|
            env.input == old(cursor).input() && #[trigger] final(budget).agrees(env.grants)
                ==> old(budget).agrees(env.grants) && (Sorted {
                out: type_result(r),
                tape: tape(final(cursor), final(budget)),
                types: match parameter_types {
                    Some(types) => Some(final(types)@),
                    None => None,
                },
            }) == grammar::simple_type(
                env,
                tape(old(cursor), old(budget)),
                match parameter_types {
                    Some(types) => Some(types@),
                    None => None,
                },
                in_args,
            ),
{
    let offset = cursor.position();
    let code = cursor.next()?;
    if let Some(left) = ordinary_primitive_type(code) {
        return Ok(Datatype { left: budget.copy_string(left)?, right: None });
    }
    let datatype = if code == '_' as u8 {
        let subtype_offset = cursor.position();
        let subtype = cursor.next()?;
        let left = match extended_primitive_type(subtype) {
            Some(left) => left,
            None => return Err(
                ParseFailure::InvalidDatatypeCode { offset: subtype_offset, found: subtype },
            ),
        };
        Datatype { left: budget.copy_string(left)?, right: None }
    } else if code == '$' as u8 {
        Datatype { left: parse_dollar_datatype(cursor, budget)?, right: None }
    } else if code >= '0' as u8 && code <= '9' as u8 {
        return match parameter_types {
            Some(types) => parse_referenced_datatype(types, code, budget),
            None => Err(
                ParseFailure::MissingParameterTypeReferences { offset, digit: code },
            ),
        };
    } else {
        return Err(ParseFailure::InvalidDatatypeCode { offset, found: code });
    };
    if in_args {
        if let Some(types) = parameter_types {
            proof {
                reveal_strlit("");
                assert(""@ =~= Seq::<char>::empty());
            }
            types.push_pair(datatype.left.as_str(), "", budget)?;
        }
    }
    Ok(datatype)
}

/// Reads a datatype that starts with `$`, from its second byte on.
pub fn parse_dollar_datatype(cursor: &mut Cursor<'_>, budget: &mut AttemptBudget) -> (r: Result<
    String,
    ParseFailure,
>)
    ensures
        state::spent(old(budget).ledger(), final(budget).ledger()),
        moved(old(cursor), final(cursor)),
        forall|env: Env|
            env.input == old(cursor).input() && #[trigger] final(budget).agrees(env.grants)
                ==> old(budget).agrees(env.grants) && (Read {
                out: text::text_result(r),
                tape: tape(final(cursor), final(budget)),
            }) == grammar::dollar_text(env, tape(old(cursor), old(budget))),
{
    proof {
        reveal_with_fuel(text::joined, 8);
    }
    let subtype_offset = cursor.position();
    let subtype = cursor.next()?;
    match subtype as char {
        '0' => parse_number(cursor, budget),
        'D' => {
            let number = parse_number(cursor, budget)?;
            allocate_concat(budget, &["`template-parameter", number.as_str(), "'"])
        },
        'F' => {
            let first = parse_number(cursor, budget)?;
            let second = parse_number(cursor, budget)?;
            allocate_concat(budget, &["{", first.as_str(), ",", second.as_str(), "}"])
        },
        'G' => {
            let first = parse_number(cursor, budget)?;
            let second = parse_number(cursor, budget)?;
            let third = parse_number(cursor, budget)?;
            allocate_concat(
                budget,
                &["{", first.as_str(), ",", second.as_str(), ",", third.as_str(), "}"],
            )
        },
        'Q' => {
            let number = parse_number(cursor, budget)?;
            allocate_concat(budget, &["`non-type-template-parameter", number.as_str(), "'"])
        },
        '$' => match cursor.peek(0) {
            Some(found) => {
                if found == 'T' as u8 {
                    cursor.advance(1)?;
                    budget.copy_string("std::nullptr_t")
                } else {
                    Err(
                        ParseFailure::UnsupportedDatatypeForm {
                            offset: cursor.position(),
                            found,
                            introducer: "$$",
                        },
                    )
                }
            },
            None => Err(ParseFailure::UnexpectedEnd { offset: cursor.position() }),
        },
        _ => Err(
            ParseFailure::UnsupportedDatatypeForm {
                offset: subtype_offset,
                found: subtype,
                introducer: "$",
            },
        ),
    }
}

/// Copies the parameter type that the digit `code` refers back to.
pub fn parse_referenced_datatype(types: &RefArray, code: u8, budget: &mut AttemptBudget) -> (r: Result<
    Datatype,
    ParseFailure,
>)
    requires
        codes::between(code, '0', '9'),
    ensures
        state::spent(old(budget).ledger(), final(budget).ledger()),
        forall|env: Env, at: Tape, offset: usize|
            at.ledger == old(budget).ledger() && #[trigger] final(budget).agrees(env.grants)
                ==> old(budget).agrees(env.grants) && (Read {
                out: type_result(r),
                tape: (Tape { ledger: final(budget).ledger(), ..at }),
            }) == #[trigger] grammar::referenced_type(env, at, offset, code, Some(types@)),
{
    let digit: usize = (code - '0' as u8) as usize;
    let left = match types.reference(digit * 2) {
        Ok(left) => budget.copy_string(left)?,
        Err(error) => return Err(error),
    };
    let right = match types.reference(digit * 2 + 1) {
        Ok(right) => Some(budget.copy_string(right)?),
        Err(ParseFailure::ReferenceOutOfHighWater { start, index, max }) => None,
        Err(error) => return Err(error),
    };
    Ok(Datatype { left, right })
}

/// The state of a parser that consists of these parts.
pub open spec fn assembled(
    cursor: &Cursor<'_>,
    names: &RefArray,
    stack: &RefArray,
    budget: &AttemptBudget,
) -> State {
    State { tape: tape(cursor, budget), names: names@, stack: stack@, name_pos: 0 }
}

/// Reads a qualified name that consists of plain names and back-references. The
/// stack is left as it was found.
pub fn parse_plain_class_name(
    cursor: &mut Cursor<'_>,
    names: &mut RefArray,
    stack: &mut RefArray,
    budget: &mut AttemptBudget,
) -> (r: Result<String, ParseFailure>)
    ensures
        state::spent(old(budget).ledger(), final(budget).ledger()),
        state::grown(old(names)@, final(names)@),
        final(names)@.start == old(names)@.start,
        state::grown(old(stack)@, final(stack)@),
        moved(old(cursor), final(cursor)),
        forall|env: Env|
            env.input == old(cursor).input() && #[trigger] final(budget).agrees(env.grants)
                ==> old(budget).agrees(env.grants) && (Step {
                out: text::text_result(r),
                st: assembled(final(cursor), final(names), final(stack), final(budget)),
            }) == grammar::settled(
                grammar::plain_components(
                    env,
                    assembled(old(cursor), old(names), old(stack), old(budget)),
                    old(stack)@.num,
                    0,
                ),
                old(stack)@.num,
            ),
{
    let checkpoint = stack.logical_num();
    let result = parse_plain_class_components(cursor, names, stack, checkpoint, budget);
    match stack.restore_num(checkpoint) {
        Ok(_) => result,
        Err(restore_error) => Err(restore_error),
    }
}

/// Reads the components of a qualified name and renders them.
pub fn parse_plain_class_components(
    cursor: &mut Cursor<'_>,
    names: &mut RefArray,
    stack: &mut RefArray,
    checkpoint: usize,
    budget: &mut AttemptBudget,
) -> (r: Result<String, ParseFailure>)
    ensures
        state::spent(old(budget).ledger(), final(budget).ledger()),
        state::grown(old(names)@, final(names)@),
        final(names)@.start == old(names)@.start,
        state::grown(old(stack)@, final(stack)@),
        moved(old(cursor), final(cursor)),
        forall|env: Env|
            env.input == old(cursor).input() && #[trigger] final(budget).agrees(env.grants)
                ==> old(budget).agrees(env.grants) && (Step {
                out: text::text_result(r),
                st: assembled(final(cursor), final(names), final(stack), final(budget)),
            }) == grammar::plain_components(
                env,
                assembled(old(cursor), old(names), old(stack), old(budget)),
                checkpoint,
                0,
            ),
{
    proof {
        reveal(grammar::plain_components);
    }
    let mut output_len: usize = 0;
    loop
        invariant
            cursor.input() == old(cursor).input(),
            state::spent(old(budget).ledger(), budget.ledger()),
            state::grown(old(names)@, names@),
            names@.start == old(names)@.start,
            state::grown(old(stack)@, stack@),
            old(cursor).pos() <= cursor.pos(),
            forall|env: Env|
                env.input == old(cursor).input() && #[trigger] budget.agrees(env.grants) ==> old(
                    budget,
                ).agrees(env.grants) && grammar::plain_components(
                    env,
                    assembled(old(cursor), old(names), old(stack), old(budget)),
                    checkpoint,
                    0,
                ) == grammar::plain_components(
                    env,
                    assembled(cursor, names, stack, budget),
                    checkpoint,
                    output_len,
                ),
        decreases cursor.input().len() - cursor.pos(),
    {
        proof {
            reveal(grammar::plain_components);
        }
        let has_previous = stack.logical_num() != checkpoint;
        let offset = cursor.position();
        let code = match cursor.peek(0) {
            Some(code) => code,
            None => return Err(ParseFailure::UnexpectedEnd { offset }),
        };
        if code == '@' as u8 {
            cursor.advance(1)?;
            if !has_previous {
                return Err(ParseFailure::EmptyClass { offset });
            }
            return render_class_name(stack, checkpoint, budget);
        }
        if code == '?' as u8 {
            return Err(ParseFailure::UnsupportedClassComponent { offset, found: code });
        }
        if code >= '0' as u8 && code <= '9' as u8 {
            cursor.advance(1)?;
            let referenced = names.reference((code - '0' as u8) as usize)?;
            let next_output_len = checked_class_output_len(
                output_len,
                byte_len(referenced),
                has_previous,
            )?;
            stack.push(referenced, budget)?;
            output_len = next_output_len;
        } else {
            let component = parse_literal_string(cursor, names, budget)?;
            let next_output_len = checked_class_output_len(
                output_len,
                byte_len(component.as_str()),
                has_previous,
            )?;
            stack.push(component.as_str(), budget)?;
            output_len = next_output_len;
        }
    }
}

/// The width of a one-character text with a code below 256.
proof fn lemma_byte_as_char(byte: u8)
    ensures
        text::byte_width(seq![byte as char]) == (if byte < 128 {
            1nat
        } else {
            2
        }),
{
    let one = seq![byte as char];
    reveal_with_fuel(encode_utf8, 2);
    assert(one.drop_first() =~= Seq::empty());
    assert(encode_utf8(one) =~= encode_scalar(byte as char as u32));
}

/// The number of UTF-8 bytes of the character with this code.
fn delimiter_len(byte: u8) -> (len: usize)
    ensures
        len == text::byte_width(seq![byte as char]),
        len <= 2,
{
    proof {
        lemma_byte_as_char(byte);
    }
    if byte < 128 {
        1
    } else {
        2
    }
}

/// One more part puts a comma and itself behind the others.
proof fn lemma_comma_step(parts: Seq<Text>, count: int)
    requires
        0 <= count < parts.len(),
    ensures
        grammar::comma_separated(parts.take(count + 1)) == (if count == 0 {
            parts[0]
        } else {
            grammar::comma_separated(parts.take(count)) + seq![','] + parts[count]
        }),
        text::byte_width(grammar::comma_separated(parts.take(count + 1))) == text::byte_width(
            grammar::comma_separated(parts.take(count)),
        ) + text::byte_width(parts[count]) + if count == 0 {
            0nat
        } else {
            1
        },
{
    let shorter = grammar::comma_separated(parts.take(count));
    assert(parts.take(count + 1).drop_last() =~= parts.take(count));
    if count > 0 {
        text::lemma_byte_width_concat(shorter + seq![','], parts[count]);
        text::lemma_byte_width_concat(shorter, seq![',']);
        lemma_byte_as_char(',' as u8);
        assert(',' as u8 as char == ',');
    }
}

/// More parts are no narrower.
proof fn lemma_comma_grows(parts: Seq<Text>, few: int, many: int)
    requires
        0 <= few <= many <= parts.len(),
    ensures
        text::byte_width(grammar::comma_separated(parts.take(few))) <= text::byte_width(
            grammar::comma_separated(parts.take(many)),
        ),
    decreases many,
{
    if few < many {
        lemma_comma_grows(parts, few, many - 1);
        lemma_comma_step(parts, many - 1);
    }
}

/// The width of a list in its delimiters.
proof fn lemma_delimited(open: u8, inner: Text, close: u8)
    ensures
        text::byte_width(seq![open as char] + inner + seq![close as char]) == text::byte_width(
            seq![open as char],
        ) + text::byte_width(inner) + text::byte_width(seq![close as char]),
{
    text::lemma_byte_width_concat(seq![open as char] + inner, seq![close as char]);
    text::lemma_byte_width_concat(seq![open as char], inner);
}

/// Renders an argument list between `open` and `close`, within the budget.
pub fn render_argument_list(
    arguments: &[String],
    open: u8,
    close: u8,
    budget: &mut AttemptBudget,
) -> (r: Result<String, ParseFailure>)
    ensures
        r matches Ok(output) ==> text::byte_width(output@) <= final(budget).ledger().used,
        state::spent(old(budget).ledger(), final(budget).ledger()),
        forall|g: Grants| #[trigger]
            final(budget).agrees(g) ==> old(budget).agrees(g) && (Charged {
                out: text::text_result(r),
                ledger: final(budget).ledger(),
            }) == old(budget).ledger().produce(
                g,
                grammar::arguments_text(text::owned_texts(arguments@), open, close),
            ),
{
    proof {
        reveal(Ledger::produce);
    }
    let ghost parts = text::owned_texts(arguments@);
    let count = arguments.len();
    let render_void = count == 0 || (count == 1 && same_text(arguments[0].as_str(), "void"));
    let nested_closing = close == '>' as u8 && count > 0 && ends_with_char(
        arguments[count - 1].as_str(),
        '>',
    );
    let ghost list = grammar::comma_separated(parts);
    let ghost inner = if render_void {
        "void"@
    } else if nested_closing {
        list + seq![' ']
    } else {
        list
    };
    proof {
        assert(grammar::arguments_text(parts, open, close) == seq![open as char] + inner
            + seq![close as char]);
        lemma_delimited(open, inner, close);
        text::lemma_byte_width_concat(list, seq![' ']);
        lemma_byte_as_char(' ' as u8);
        assert(' ' as u8 as char == ' ');
        reveal_strlit("void");
        assert(is_ascii_chars("void"@));
        is_ascii_chars_encode_utf8("void"@);
        assert(parts.take(0) =~= Seq::empty());
        assert(parts.take(parts.len() as int) =~= parts);
    }
    let too_long = Err(
        ParseFailure::OutputLimitExceeded { attempted: usize::MAX, limit: MAX_OUTPUT_BYTES },
    );
    let delimiters: usize = delimiter_len(open) + delimiter_len(close);
    let mut output_len: usize = delimiters;
    if render_void {
        output_len = output_len + 4;
    } else {
        let mut index: usize = 0;
        assert(grammar::comma_separated(parts.take(0)) =~= Seq::empty());
        while index < count
            invariant
                index <= count,
                count == arguments@.len(),
                parts == text::owned_texts(arguments@),
                list == grammar::comma_separated(parts),
                parts.take(parts.len() as int) == parts,
                *budget == *old(budget),
                delimiters <= 4,
                text::byte_width(grammar::arguments_text(parts, open, close)) >= delimiters
                    + text::byte_width(list),
                too_long == Err::<String, ParseFailure>(
                    ParseFailure::OutputLimitExceeded {
                        attempted: usize::MAX,
                        limit: MAX_OUTPUT_BYTES,
                    },
                ),
                output_len == delimiters + text::byte_width(
                    grammar::comma_separated(parts.take(index as int)),
                ),
            decreases count - index,
        {
            proof {
                reveal(Ledger::produce);
                lemma_comma_step(parts, index as int);
                lemma_comma_grows(parts, index + 1, parts.len() as int);
            }
            let len = byte_len(arguments[index].as_str());
            output_len = match output_len.checked_add(len) {
                Some(output_len) => output_len,
                None => return too_long,
            };
            if index != 0 {
                output_len = match output_len.checked_add(1) {
                    Some(output_len) => output_len,
                    None => return too_long,
                };
            }
            index += 1;
        }
        if nested_closing {
            output_len = match output_len.checked_add(1) {
                Some(output_len) => output_len,
                None => return too_long,
            };
        }
    }
    let reservation = budget.preflight(output_len)?;
    let mut output = match budget.reserve_text(output_len) {
        Some(output) => output,
        None => return Err(ParseFailure::OutputAllocationFailed { additional: output_len }),
    };
    let ghost reserved = *budget;
    output.push(open as char);
    assert(output@ =~= seq![open as char]);
    if render_void {
        output.append("void");
    } else {
        let mut index: usize = 0;
        assert(output@ =~= seq![open as char] + grammar::comma_separated(parts.take(0)));
        while index < count
            invariant
                index <= count,
                count == arguments@.len(),
                parts == text::owned_texts(arguments@),
                *budget == reserved,
                output@ == seq![open as char] + grammar::comma_separated(parts.take(index as int)),
            decreases count - index,
        {
            proof {
                lemma_comma_step(parts, index as int);
            }
            let ghost before = grammar::comma_separated(parts.take(index as int));
            if index != 0 {
                output.push(',');
            }
            output.append(arguments[index].as_str());
            proof {
                if index == 0 {
                    assert(before =~= Seq::empty());
                    assert(output@ =~= seq![open as char] + parts[0]);
                } else {
                    assert(output@ =~= seq![open as char] + (before + seq![','] + parts[index as int]));
                }
            }
            index += 1;
        }
        if nested_closing {
            output.push(' ');
        }
    }
    assert(output@ =~= seq![open as char] + inner);
    output.push(close as char);
    assert(output@ =~= seq![open as char] + inner + seq![close as char]);
    budget.commit(reservation);
    Ok(output)
}

} // verus!
