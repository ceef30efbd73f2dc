//! Where each piece stands in a rendered text.

use vstd::prelude::*;
use vstd::utf8::{encode_utf8, is_ascii_chars, is_ascii_chars_encode_utf8};

use crate::error::ParseFailure;
use crate::limits::MAX_OUTPUT_BYTES;
use crate::msvc::grammar;
use crate::msvc::grammar::{Env, Read, State, Tape, MAX_ENCODED_NUMBER};
use crate::msvc::state::{Ledger, Table};
use crate::text;
use crate::text::Text;

verus! {

// ---------------------------------------------------------------------------
// Qualified names
// ---------------------------------------------------------------------------

/// The number of characters in front of component `index`: every component above it,
/// up to `end`, and the two colons behind each.
pub open spec fn place_of(slots: Seq<Text>, index: int, end: int) -> int
    decreases end - index,
{
    if end <= index + 1 {
        0
    } else {
        place_of(slots, index + 1, end) + slots[index + 1].len() + 2
    }
}

/// The sum of the byte widths of the components from `start` up to `end`.
pub open spec fn width_sum(slots: Seq<Text>, start: int, end: int) -> int
    decreases end - start,
{
    if end <= start {
        0
    } else {
        text::byte_width(slots[start]) + width_sum(slots, start + 1, end)
    }
}

/// The sum grows at its upper end by one component.
pub proof fn lemma_width_sum_upper(slots: Seq<Text>, start: int, end: int)
    requires
        start < end,
    ensures
        width_sum(slots, start, end) == width_sum(slots, start, end - 1) + text::byte_width(
            slots[end - 1],
        ),
    decreases end - start,
{
    if start + 1 < end {
        lemma_width_sum_upper(slots, start + 1, end);
    } else {
        assert(width_sum(slots, start + 1, end) == 0);
        assert(width_sum(slots, start, end - 1) == 0);
    }
}

/// Sums are not negative.
pub proof fn lemma_width_sum_bound(slots: Seq<Text>, start: int, end: int)
    ensures
        width_sum(slots, start, end) >= 0,
    decreases end - start,
{
    if start < end {
        lemma_width_sum_bound(slots, start + 1, end);
    }
}

/// One component more stands in front of all others.
proof fn lemma_place_upper(slots: Seq<Text>, index: int, end: int)
    requires
        index + 1 < end,
    ensures
        place_of(slots, index, end) == place_of(slots, index, end - 1) + slots[end - 1].len() + 2,
    decreases end - index,
{
    if index + 2 < end {
        lemma_place_upper(slots, index + 1, end);
    } else {
        assert(place_of(slots, index + 1, end) == 0);
        assert(place_of(slots, index, end - 1) == 0);
    }
}

/// Two colons are two bytes.
proof fn lemma_colons()
    ensures
        "::"@.len() == 2,
        "::"@[0] == ':',
        "::"@[1] == ':',
        text::byte_width("::"@) == 2,
{
    reveal_strlit("::");
    assert(is_ascii_chars("::"@));
    is_ascii_chars_encode_utf8("::"@);
}

/// `whole` holds `part` from `place` on.
pub open spec fn holds_at(whole: Text, place: int, part: Text) -> bool {
    &&& 0 <= place
    &&& place + part.len() <= whole.len()
    &&& whole.subrange(place, place + part.len()) == part
}

/// What stands in a text stands in it further behind once something is put in front.
proof fn lemma_holds_behind(front: Text, whole: Text, place: int, part: Text)
    requires
        holds_at(whole, place, part),
    ensures
        holds_at(front + whole, front.len() + place, part),
{
    assert((front + whole).subrange(front.len() + place, front.len() + place + part.len())
        =~= whole.subrange(place, place + part.len()));
}

/// Where the components of a qualified name stand.
proof fn lemma_components_in_place(slots: Seq<Text>, start: int, end: int)
    requires
        start <= end,
    ensures
        start == end ==> grammar::qualified(slots, start, end).len() == 0,
        forall|i: int|
            start <= i < end ==> {
                &&& holds_at(
                    grammar::qualified(slots, start, end),
                    #[trigger] place_of(slots, i, end),
                    slots[i],
                )
                &&& i == start ==> place_of(slots, i, end) + slots[i].len() == grammar::qualified(
                    slots,
                    start,
                    end,
                ).len()
                &&& i > start ==> holds_at(
                    grammar::qualified(slots, start, end),
                    place_of(slots, i, end) + slots[i].len(),
                    "::"@,
                )
            },
        text::byte_width(grammar::qualified(slots, start, end)) == width_sum(slots, start, end) + (
        if start < end {
            2 * (end - start - 1)
        } else {
            0
        }),
    decreases end - start,
{
    lemma_colons();
    let whole = grammar::qualified(slots, start, end);
    if start == end {
        assert(whole =~= Seq::empty());
        text::lemma_byte_width_empty(whole);
    } else if start + 1 == end {
        assert(whole.subrange(0, whole.len() as int) =~= whole);
        assert(width_sum(slots, start + 1, end) == 0);
    } else {
        let inner = grammar::qualified(slots, start, end - 1);
        let first = slots[end - 1];
        let front = first + "::"@;
        lemma_components_in_place(slots, start, end - 1);
        lemma_width_sum_upper(slots, start, end);
        assert(whole == front + inner);
        text::lemma_byte_width_concat(front, inner);
        text::lemma_byte_width_concat(first, "::"@);
        assert forall|i: int| start <= i < end implies ({
            &&& holds_at(whole, #[trigger] place_of(slots, i, end), slots[i])
            &&& i == start ==> place_of(slots, i, end) + slots[i].len() == whole.len()
            &&& i > start ==> holds_at(whole, place_of(slots, i, end) + slots[i].len(), "::"@)
        }) by {
            if i == end - 1 {
                assert(whole.subrange(0, first.len() as int) =~= first);
                assert(whole.subrange(first.len() as int, first.len() as int + 2) =~= "::"@);
            } else {
                lemma_place_upper(slots, i, end);
                let place = place_of(slots, i, end - 1);
                lemma_holds_behind(front, inner, place, slots[i]);
                if i > start {
                    lemma_holds_behind(front, inner, place + slots[i].len(), "::"@);
                }
            }
        }
    }
}

/// The width that is found beforehand is that of the text, and it is found for every
/// text that the output can hold.
proof fn lemma_stacked_width(stack: Table, start: usize, end: usize)
    requires
        start <= end <= stack.num,
        stack.num <= stack.slots.len(),
    ensures
        grammar::stacked_width(stack, start, end) is Ok <==> (start == end || width_sum(
            stack.slots,
            start as int,
            end as int,
        ) + 2 * (end - start - 1) <= MAX_OUTPUT_BYTES),
        grammar::stacked_width(stack, start, end) matches Ok(width) ==> width == (if start == end {
            0
        } else {
            width_sum(stack.slots, start as int, end as int) + 2 * (end - start - 1)
        }),
    decreases end,
{
    if start < end {
        let last = (end - 1) as usize;
        lemma_stacked_width(stack, start, last);
        lemma_width_sum_upper(stack.slots, start as int, end as int);
        lemma_width_sum_bound(stack.slots, start as int, last as int);
        if start == last {
            assert(width_sum(stack.slots, start as int, last as int) == 0);
        }
    }
}

/// `rendered` is the components from `start` up to `end` and nothing else: the one
/// with the highest index comes first, two colons stand between neighbours, and the
/// text is as wide as the components and the colons together.
pub open spec fn is_qualified_name(
    rendered: Text,
    slots: Seq<Text>,
    start: int,
    end: int,
) -> bool {
    &&& start <= end
    &&& start == end ==> rendered.len() == 0
    &&& start < end ==> text::byte_width(rendered) == width_sum(slots, start, end) + 2 * (end
        - start - 1)
    &&& forall|i: int|
        start <= i < end ==> {
            let place = #[trigger] place_of(slots, i, end);
            let behind = place + slots[i].len();
            &&& 0 <= place
            &&& behind <= rendered.len()
            &&& rendered.subrange(place, behind) == slots[i]
            &&& i == start ==> behind == rendered.len()
            &&& i > start ==> behind + 2 <= rendered.len() && rendered[behind] == ':'
                && rendered[behind + 1] == ':' && place_of(slots, i - 1, end) == behind + 2
        }
}

/// A rendered qualified name holds every active component from `start` on, the one
/// that was pushed last first. Rendering it leaves the tables and the position as
/// they were.
pub proof fn lemma_qualified_name_is_complete(
    env: Env,
    ledger: Ledger,
    stack: Table,
    st: State,
    start: usize,
)
    ensures
        grammar::class_text(env, ledger, stack, start).out matches Ok(rendered)
            ==> is_qualified_name(rendered, stack.slots, start as int, stack.num as int),
        grammar::render_class(env, st, start).out matches Ok(rendered) ==> is_qualified_name(
            rendered,
            st.stack.slots,
            start as int,
            st.stack.num as int,
        ),
        grammar::render_class(env, st, start).st.stack == st.stack,
        grammar::render_class(env, st, start).st.names == st.names,
        grammar::render_class(env, st, start).st.tape.pos == st.tape.pos,
{
    reveal(Ledger::produce);
    lemma_is_qualified_name(stack.slots, start as int, stack.num as int);
    lemma_is_qualified_name(st.stack.slots, start as int, st.stack.num as int);
}

/// What is rendered of a stack is a qualified name.
pub proof fn lemma_is_qualified_name(slots: Seq<Text>, start: int, end: int)
    ensures
        start <= end ==> is_qualified_name(
            grammar::qualified(slots, start, end),
            slots,
            start,
            end,
        ),
{
    if start <= end {
        lemma_colons();
        let rendered = grammar::qualified(slots, start, end);
        lemma_components_in_place(slots, start, end);
        assert forall|i: int| start <= i < end implies ({
            let place = #[trigger] place_of(slots, i, end);
            let behind = place + slots[i].len();
            &&& i > start ==> behind + 2 <= rendered.len() && rendered[behind] == ':'
                && rendered[behind + 1] == ':' && place_of(slots, i - 1, end) == behind + 2
        }) by {
            if i > start {
                let behind = place_of(slots, i, end) + slots[i].len();
                let colons = rendered.subrange(behind, behind + 2);
                assert(colons == "::"@);
                assert(rendered[behind] == colons[0]);
                assert(rendered[behind + 1] == colons[1]);
            }
        }
    }
}

/// A qualified name is rendered as soon as the active components and the colons
/// between them fit the output, and the allocator grants the room.
pub proof fn lemma_qualified_name_is_rendered(
    env: Env,
    ledger: Ledger,
    stack: Table,
    start: usize,
)
    requires
        start < stack.num,
        stack.num <= stack.slots.len(),
        ledger.used <= ledger.limit,
        width_sum(stack.slots, start as int, stack.num as int) + 2 * (stack.num - start - 1)
            <= MAX_OUTPUT_BYTES,
        ledger.used + width_sum(stack.slots, start as int, stack.num as int) + 2 * (stack.num
            - start - 1) <= ledger.limit,
        (env.grants)(ledger.asked),
    ensures
        grammar::class_text(env, ledger, stack, start).out is Ok,
{
    reveal(Ledger::produce);
    lemma_stacked_width(stack, start, stack.num);
    lemma_components_in_place(stack.slots, start as int, stack.num as int);
}

// ---------------------------------------------------------------------------
// Argument lists
// ---------------------------------------------------------------------------

/// The number of characters in front of part `index`: every part below it, and the
/// comma behind each.
pub open spec fn offset_of(parts: Seq<Text>, index: int) -> int
    decreases index,
{
    if index <= 0 {
        0
    } else {
        offset_of(parts, index - 1) + parts[index - 1].len() + 1
    }
}

/// Offsets depend on the parts in front alone.
proof fn lemma_offset_prefix(parts: Seq<Text>, index: int)
    requires
        0 <= index < parts.len(),
    ensures
        offset_of(parts.drop_last(), index) == offset_of(parts, index),
    decreases index,
{
    if index > 0 {
        lemma_offset_prefix(parts, index - 1);
    }
}

/// Parts that are joined by commas all stand in the whole, in order, with one comma
/// between neighbours and nothing around them.
pub proof fn lemma_list_is_complete(parts: Seq<Text>)
    ensures
        ({
            let whole = grammar::comma_separated(parts);
            &&& parts.len() == 0 ==> whole.len() == 0
            &&& forall|i: int|
                0 <= i < parts.len() ==> {
                    let behind = offset_of(parts, i) + (#[trigger] parts[i]).len();
                    &&& holds_at(whole, offset_of(parts, i), parts[i])
                    &&& i + 1 == parts.len() ==> behind == whole.len()
                    &&& i + 1 < parts.len() ==> behind < whole.len() && whole[behind] == ','
                        && offset_of(parts, i + 1) == behind + 1
                }
        }),
    decreases parts.len(),
{
    let whole = grammar::comma_separated(parts);
    if parts.len() == 1 {
        assert(whole.subrange(0, whole.len() as int) =~= whole);
    } else if parts.len() > 1 {
        let shorter = parts.drop_last();
        let front = grammar::comma_separated(shorter);
        let last = parts.len() - 1;
        lemma_list_is_complete(shorter);
        assert forall|i: int| 0 <= i < parts.len() implies ({
            let behind = offset_of(parts, i) + (#[trigger] parts[i]).len();
            &&& holds_at(whole, offset_of(parts, i), parts[i])
            &&& i + 1 == parts.len() ==> behind == whole.len()
            &&& i + 1 < parts.len() ==> behind < whole.len() && whole[behind] == ',' && offset_of(
                parts,
                i + 1,
            ) == behind + 1
        }) by {
            lemma_offset_prefix(parts, i);
            if i < last {
                let place = offset_of(shorter, i);
                assert(shorter[i] == parts[i]);
                assert(holds_at(front, place, shorter[i]));
                assert(whole.subrange(place, place + parts[i].len()) =~= front.subrange(
                    place,
                    place + parts[i].len(),
                ));
            } else {
                lemma_offset_prefix(parts, last - 1);
                assert(shorter[last - 1] == parts[last - 1]);
                assert(offset_of(shorter, last - 1) + shorter[last - 1].len() == front.len());
                assert(offset_of(parts, i) == front.len() + 1);
                assert(whole.subrange(front.len() as int + 1, whole.len() as int) =~= parts[last]);
            }
        }
    }
}

/// A rendered argument list is its brackets and, between them, the arguments: each
/// of them, in order, with one comma between neighbours. No argument at all is
/// rendered as `void`. Only a template list whose last argument ends in a closing
/// bracket has a blank in front of its own.
#[verifier::spinoff_prover]
#[verifier::rlimit(60)]
pub proof fn lemma_argument_list_is_complete(arguments: Seq<Text>, open: u8, close: u8)
    ensures
        ({
            let rendered = grammar::arguments_text(arguments, open, close);
            let alone = arguments.len() == 0 || (arguments.len() == 1 && arguments[0] == seq![
                'v',
                'o',
                'i',
                'd',
            ]);
            &&& rendered.len() >= 2
            &&& rendered[0] == open as char
            &&& rendered[rendered.len() - 1] == close as char
            &&& alone ==> rendered.subrange(1, rendered.len() - 1) == seq!['v', 'o', 'i', 'd']
            &&& !alone ==> forall|i: int|
                0 <= i < arguments.len() ==> {
                    let place = 1 + offset_of(arguments, i);
                    let behind = place + (#[trigger] arguments[i]).len();
                    &&& holds_at(rendered, place, arguments[i])
                    &&& i + 1 < arguments.len() ==> rendered[behind] == ',' && behind + 1 == 1
                        + offset_of(arguments, i + 1)
                    &&& i + 1 == arguments.len() ==> if close == '>' as u8 && arguments[i].len() > 0
                        && arguments[i][arguments[i].len() - 1] == '>' {
                        rendered[behind] == ' ' && behind + 2 == rendered.len()
                    } else {
                        behind + 1 == rendered.len()
                    }
                }
        }),
{
    reveal_strlit("void");
    assert("void"@ =~= seq!['v', 'o', 'i', 'd']);
    let rendered = grammar::arguments_text(arguments, open, close);
    let alone = arguments.len() == 0 || (arguments.len() == 1 && arguments[0] == "void"@);
    let list = grammar::comma_separated(arguments);
    lemma_list_is_complete(arguments);
    if alone {
        assert(rendered.subrange(1, rendered.len() - 1) =~= "void"@);
    } else {
        assert(arguments.last() == arguments[arguments.len() - 1]);
        let spaced = close == '>' as u8 && arguments.last().len() > 0 && arguments.last().last()
            == '>';
        assert forall|i: int| 0 <= i < arguments.len() implies ({
            let place = 1 + offset_of(arguments, i);
            let behind = place + (#[trigger] arguments[i]).len();
            &&& holds_at(rendered, place, arguments[i])
            &&& i + 1 < arguments.len() ==> rendered[behind] == ',' && behind + 1 == 1 + offset_of(
                arguments,
                i + 1,
            )
            &&& i + 1 == arguments.len() ==> if spaced {
                rendered[behind] == ' ' && behind + 2 == rendered.len()
            } else {
                behind + 1 == rendered.len()
            }
        }) by {
            let place = offset_of(arguments, i);
            assert(holds_at(list, place, arguments[i]));
            assert(rendered.subrange(1 + place, 1 + place + arguments[i].len()) =~= list.subrange(
                place,
                place + arguments[i].len(),
            ));
        }
    }
}

// ---------------------------------------------------------------------------
// Numbers
// ---------------------------------------------------------------------------

/// The number that decimal digits denote, the most significant first.
pub open spec fn denoted(digits: Text) -> int
    decreases digits.len(),
{
    if digits.len() == 0 {
        0
    } else {
        10 * denoted(digits.drop_last()) + (digits.last() as int - '0' as int)
    }
}

/// A number is rendered by decimal digits that denote it, without leading zeros.
pub proof fn lemma_digits_denote_number(value: nat)
    ensures
        ({
            let digits = grammar::decimal(value);
            &&& digits.len() >= 1
            &&& forall|i: int|
                0 <= i < digits.len() ==> '0' as int <= (#[trigger] digits[i]) as int <= '9' as int
            &&& denoted(digits) == value
            &&& digits.len() > 1 ==> digits[0] != '0'
        }),
    decreases value,
{
    let digits = grammar::decimal(value);
    let digit = (('0' as nat) + value % 10) as char;
    assert(digit as int == '0' as int + value % 10);
    if value < 10 {
        assert(digits.drop_last() =~= Seq::empty());
        assert(digits.last() == digit);
        assert(denoted(digits.drop_last()) == 0);
        assert(denoted(digits) == value);
    } else {
        let front = grammar::decimal(value / 10);
        lemma_digits_denote_number(value / 10);
        assert(digits.drop_last() =~= front);
        assert(digits[0] == front[0]);
        assert(digits.last() == digit);
        assert(denoted(digits) == 10 * (value / 10) as int + value % 10);
        assert forall|i: int| 0 <= i < digits.len() implies '0' as int <= (
        #[trigger] digits[i]) as int <= '9' as int by {
            if i < front.len() {
                assert(digits[i] == front[i]);
            }
        }
        if front.len() == 1 {
            assert(front.drop_last() =~= Seq::empty());
            assert(denoted(front.drop_last()) == 0);
            assert(denoted(front) == front.last() as int - '0' as int);
            assert(value / 10 >= 1);
        }
    }
}

/// A negative number is rendered like the number, behind a minus sign.
pub proof fn lemma_sign_stands_in_front(value: nat)
    ensures
        grammar::number_text(value, true).len() == grammar::number_text(value, false).len() + 1,
        grammar::number_text(value, true)[0] == '-',
        grammar::number_text(value, true).subrange(
            1,
            grammar::number_text(value, true).len() as int,
        ) == grammar::number_text(value, false),
        denoted(grammar::number_text(value, false)) == value,
{
    lemma_digits_denote_number(value);
    let signed = grammar::number_text(value, true);
    assert(signed.subrange(1, signed.len() as int) =~= grammar::number_text(value, false));
}

/// The number that letters `A` to `P` write in base sixteen, the most significant
/// first.
pub open spec fn written(letters: Seq<u8>) -> int
    decreases letters.len(),
{
    if letters.len() == 0 {
        0
    } else {
        16 * written(letters.drop_last()) + (letters.last() - 'A' as u8)
    }
}

/// Reading on from a prefix gives what reading the whole gives, where the whole can
/// be held.
proof fn lemma_reads_letters(
    env: Env,
    tape: Tape,
    start: usize,
    letters: Seq<u8>,
    read: int,
    negative: bool,
)
    requires
        env.input.len() <= usize::MAX,
        0 <= read <= letters.len(),
        tape.pos + letters.len() - read < env.input.len(),
        forall|i: int|
            0 <= i < letters.len() ==> 'A' as u8 <= #[trigger] letters[i] <= 'P' as u8,
        forall|i: int|
            read <= i < letters.len() ==> #[trigger] letters[i] == env.input[tape.pos + i - read],
        env.input[tape.pos + letters.len() - read] == '@' as u8,
        forall|i: int|
            0 <= i <= letters.len() ==> written(#[trigger] letters.take(i)) <= MAX_ENCODED_NUMBER,
        written(letters.take(read)) >= 0,
    ensures
        grammar::hexadecimal(
            env,
            tape,
            start,
            written(letters.take(read)) as nat,
            negative,
        ) == tape.skip((letters.len() - read + 1) as nat).emit(
            env,
            grammar::number_text(written(letters) as nat, negative),
        ),
    decreases letters.len() - read,
{
    let value = written(letters.take(read));
    if read < letters.len() {
        let byte = env.input[tape.pos as int];
        assert(letters[read] == env.input[tape.pos + read - read]);
        assert(env.at(tape.pos, 0) == Some(byte));
        assert(letters.take(read + 1).drop_last() =~= letters.take(read));
        assert(letters.take(read + 1).last() == letters[read]);
        let next = value * 16 + (byte - 'A' as u8);
        assert(written(letters.take(read + 1)) == next);
        let on = tape.skip(1);
        assert forall|i: int| read + 1 <= i < letters.len() implies #[trigger] letters[i]
            == env.input[on.pos + i - (read + 1)] by {
            assert(letters[i] == env.input[tape.pos + i - read]);
        }
        lemma_reads_letters(env, on, start, letters, read + 1, negative);
        assert(on.skip((letters.len() - (read + 1) + 1) as nat) == tape.skip(
            (letters.len() - read + 1) as nat,
        ));
    } else {
        assert(letters.take(read) =~= letters);
        assert(env.at(tape.pos, 0) == Some('@' as u8));
    }
}

/// Letters write more with every letter.
proof fn lemma_written_grows(letters: Seq<u8>, few: int, many: int)
    requires
        0 <= few <= many <= letters.len(),
        forall|i: int|
            0 <= i < letters.len() ==> 'A' as u8 <= #[trigger] letters[i] <= 'P' as u8,
    ensures
        0 <= written(letters.take(few)) <= written(letters.take(many)),
    decreases many,
{
    if few < many {
        lemma_written_grows(letters, few, many - 1);
        assert(letters.take(many).drop_last() =~= letters.take(many - 1));
        assert(letters.take(many).last() == letters[many - 1]);
    } else if few > 0 {
        lemma_written_grows(letters, few - 1, few - 1);
        assert(letters.take(few).drop_last() =~= letters.take(few - 1));
        assert(letters.take(few).last() == letters[few - 1]);
    }
}

/// An encoded number is rendered as what its letters write, however many letters
/// there are: where the input holds an optional question mark, letters that write a
/// number that can be held, and an `@`, the number is rendered in decimal, behind a
/// minus sign where there was a question mark, and all of it is read.
pub proof fn lemma_encoded_number_is_rendered(
    env: Env,
    tape: Tape,
    letters: Seq<u8>,
    negative: bool,
)
    requires
        env.input.len() <= usize::MAX,
        letters.len() > 0,
        forall|i: int|
            0 <= i < letters.len() ==> 'A' as u8 <= #[trigger] letters[i] <= 'P' as u8,
        written(letters) <= MAX_ENCODED_NUMBER,
        ({
            let sign: int = if negative {
                1
            } else {
                0
            };
            &&& tape.pos + sign + letters.len() < env.input.len()
            &&& negative ==> env.input[tape.pos as int] == '?' as u8
            &&& forall|i: int|
                0 <= i < letters.len() ==> #[trigger] letters[i] == env.input[tape.pos + sign + i]
            &&& env.input[tape.pos + sign + letters.len()] == '@' as u8
        }),
    ensures
        written(letters) >= 0,
        ({
            let sign: int = if negative {
                1
            } else {
                0
            };
            let after = tape.skip((sign + letters.len() + 1) as nat);
            let digits = grammar::decimal(written(letters) as nat);
            &&& negative ==> grammar::number(env, tape) == after.emit(env, seq!['-'] + digits)
            &&& !negative ==> grammar::number(env, tape) == after.emit(env, digits)
        }),
{
    reveal(grammar::number);
    let sign: int = if negative {
        1
    } else {
        0
    };
    let body = if negative {
        tape.skip(1)
    } else {
        tape
    };
    lemma_written_grows(letters, 0, letters.len() as int);
    assert(letters.take(letters.len() as int) =~= letters);
    assert(letters.take(0) =~= Seq::empty());
    assert forall|i: int| 0 <= i <= letters.len() implies written(#[trigger] letters.take(i))
        <= MAX_ENCODED_NUMBER by {
        lemma_written_grows(letters, i, letters.len() as int);
    }
    assert(letters[0] == env.input[tape.pos + sign + 0]);
    assert(env.at(body.pos, 0) == Some(letters[0]));
    assert forall|i: int| 0 <= i < letters.len() implies #[trigger] letters[i] == env.input[body.pos
        + i - 0] by {
        assert(letters[i] == env.input[tape.pos + sign + i]);
    }
    lemma_reads_letters(env, body, tape.pos, letters, 0, negative);
    assert(body.skip((letters.len() - 0 + 1) as nat) == tape.skip(
        (sign + letters.len() + 1) as nat,
    ));
}

/// One digit stands for one more than it shows: `0` is one and `9` is ten.
pub proof fn lemma_digit_is_rendered(env: Env, tape: Tape, digit: int)
    requires
        env.input.len() <= usize::MAX,
        0 <= digit <= 9,
        tape.pos < env.input.len(),
        env.input[tape.pos as int] == '0' as u8 + digit,
    ensures
        grammar::number(env, tape) == tape.skip(1).emit(env, grammar::decimal((digit + 1) as nat)),
{
    reveal(grammar::number);
    assert(env.at(tape.pos, 0) == Some(env.input[tape.pos as int]));
}

/// The bytes of decimal digits write the number that the digits denote.
proof fn lemma_digits_are_read_back(digits: Text)
    requires
        forall|i: int|
            0 <= i < digits.len() ==> '0' as int <= (#[trigger] digits[i]) as int <= '9' as int,
    ensures
        denoted(digits) >= 0,
        grammar::decimal_value(encode_utf8(digits)) == Some(denoted(digits) as nat),
    decreases digits.len(),
{
    assert(is_ascii_chars(digits));
    is_ascii_chars_encode_utf8(digits);
    let bytes = encode_utf8(digits);
    if digits.len() > 0 {
        let front = digits.drop_last();
        assert forall|i: int| 0 <= i < front.len() implies '0' as int <= (
        #[trigger] front[i]) as int <= '9' as int by {
            assert(front[i] == digits[i]);
        }
        lemma_digits_are_read_back(front);
        assert(is_ascii_chars(front));
        is_ascii_chars_encode_utf8(front);
        assert(bytes.drop_last() =~= encode_utf8(front)) by {
            assert forall|i: int| 0 <= i < front.len() implies bytes[i] == encode_utf8(
                front,
            )[i] by {
                assert(front[i] == digits[i]);
            }
        }
        let last = digits[digits.len() - 1];
        assert(bytes.last() == last as u8);
        assert('0' as int <= last as int <= '9' as int);
    }
}

/// A rendered number is the count that it denotes, whatever its size. Less than zero
/// is refused.
pub proof fn lemma_count_is_read_back(value: nat, offset: usize)
    requires
        value <= MAX_ENCODED_NUMBER,
    ensures
        grammar::dimension_count(encode_utf8(grammar::number_text(value, false)), offset) == Ok::<
            usize,
            ParseFailure,
        >(value as usize),
        value > 0 ==> grammar::dimension_count(
            encode_utf8(grammar::number_text(value, true)),
            offset,
        ) == Err::<usize, ParseFailure>(
            ParseFailure::NegativeArrayDimensionCount { offset, value: (-value) as i32 },
        ),
{
    let digits = grammar::decimal(value);
    lemma_digits_denote_number(value);
    lemma_digits_are_read_back(digits);
    assert(is_ascii_chars(digits));
    is_ascii_chars_encode_utf8(digits);
    let bytes = encode_utf8(digits);
    assert(bytes[0] == digits[0] as u8);
    assert('0' as int <= digits[0] as int <= '9' as int);
    let signed = grammar::number_text(value, true);
    assert(is_ascii_chars(signed)) by {
        assert forall|i: int| 0 <= i < signed.len() implies (signed[i] as nat) < 128 by {
            if i > 0 {
                assert(signed[i] == digits[i - 1]);
            }
        }
    }
    is_ascii_chars_encode_utf8(signed);
    let signed_bytes = encode_utf8(signed);
    assert(signed_bytes[0] == '-' as u8);
    assert(signed_bytes.drop_first() =~= bytes) by {
        assert forall|i: int| 0 <= i < bytes.len() implies signed_bytes[i + 1] == bytes[i] by {
            assert(signed[i + 1] == digits[i]);
        }
    }
}

/// The brackets of array dimensions, one pair for each.
pub open spec fn bracketed(sizes: Seq<Text>) -> Text
    decreases sizes.len(),
{
    if sizes.len() == 0 {
        Seq::empty()
    } else {
        seq!['['] + sizes[0] + seq![']'] + bracketed(sizes.drop_first())
    }
}

/// Where the input holds one digit for each dimension, all dimensions are rendered, each
/// in its brackets and in order, however many there are.
pub proof fn lemma_every_dimension_is_rendered(
    env: Env,
    tape: Tape,
    count: nat,
    suffix: Text,
    digits: Seq<int>,
)
    requires
        env.input.len() <= usize::MAX,
        digits.len() == count,
        tape.pos + count <= env.input.len(),
        forall|i: int|
            0 <= i < count ==> 0 <= #[trigger] digits[i] <= 9 && env.input[tape.pos + i]
                == '0' as u8 + digits[i],
        grammar::dimensions(env, tape, count, suffix).out is Ok,
    ensures
        grammar::dimensions(env, tape, count, suffix).out->Ok_0 == suffix + bracketed(
            Seq::new(count, |i: int| grammar::decimal((digits[i] + 1) as nat)),
        ),
        grammar::dimensions(env, tape, count, suffix).tape.pos == tape.pos + count,
    decreases count,
{
    reveal(Ledger::produce);
    let sizes = Seq::new(count, |i: int| grammar::decimal((digits[i] + 1) as nat));
    if count == 0 {
        assert(suffix + bracketed(sizes) =~= suffix);
    } else {
        assert(env.input[tape.pos + 0] == '0' as u8 + digits[0]);
        lemma_digit_is_rendered(env, tape, digits[0]);
        let size = grammar::number(env, tape);
        reveal_strlit("[");
        reveal_strlit("]");
        let longer = suffix + "["@ + size.out->Ok_0 + "]"@;
        let rendered = size.tape.emit(env, longer);
        let rest = digits.drop_first();
        assert forall|i: int| 0 <= i < rest.len() implies 0 <= #[trigger] rest[i] <= 9
            && env.input[rendered.tape.pos + i] == '0' as u8 + rest[i] by {
            assert(rest[i] == digits[i + 1]);
            assert(env.input[tape.pos + (i + 1)] == '0' as u8 + digits[i + 1]);
        }
        lemma_every_dimension_is_rendered(
            env,
            rendered.tape,
            (count - 1) as nat,
            longer,
            rest,
        );
        let rest_sizes = Seq::new(
            (count - 1) as nat,
            |i: int| grammar::decimal((rest[i] + 1) as nat),
        );
        assert(sizes.drop_first() =~= rest_sizes);
        assert(longer =~= suffix + (seq!['['] + sizes[0] + seq![']']));
        assert(longer + bracketed(rest_sizes) =~= suffix + bracketed(sizes));
    }
}

/// Numbers that follow one another are rendered in order with a comma between
/// neighbours, between what goes in front of them and what goes behind.
pub proof fn lemma_numbers_are_rendered_in_order(
    env: Env,
    tape: Tape,
    before: Text,
    after: Text,
    a: int,
    b: int,
    c: int,
    d: int,
)
    requires
        env.input.len() <= usize::MAX,
        tape.pos + 4 <= env.input.len(),
        0 <= a <= 9,
        0 <= b <= 9,
        0 <= c <= 9,
        0 <= d <= 9,
        env.input[tape.pos as int] == '0' as u8 + a,
        env.input[tape.pos + 1] == '0' as u8 + b,
        env.input[tape.pos + 2] == '0' as u8 + c,
        env.input[tape.pos + 3] == '0' as u8 + d,
    ensures
        ({
            let first = grammar::decimal((a + 1) as nat);
            let second = grammar::decimal((b + 1) as nat);
            let third = grammar::decimal((c + 1) as nat);
            let fourth = grammar::decimal((d + 1) as nat);
            let comma = seq![','];
            &&& grammar::one_number(env, tape, before, after) matches Read { out: Ok(whole), tape: behind }
                ==> whole == before + first + after && behind.pos == tape.pos + 1
            &&& grammar::two_numbers(env, tape, before, after) matches Read { out: Ok(whole), tape: behind }
                ==> whole == before + first + comma + second + after && behind.pos == tape.pos + 2
            &&& grammar::three_numbers(env, tape, before, after) matches Read { out: Ok(whole), tape: behind }
                ==> whole == before + first + comma + second + comma + third + after && behind.pos
                == tape.pos + 3
            &&& grammar::four_numbers(env, tape, before, after) matches Read { out: Ok(whole), tape: behind }
                ==> whole == before + first + comma + second + comma + third + comma + fourth
                + after && behind.pos == tape.pos + 4
        }),
{
    reveal(Ledger::produce);
    reveal_strlit(",");
    assert(","@ =~= seq![',']);
    lemma_digit_is_rendered(env, tape, a);
    let n1 = grammar::number(env, tape).tape;
    if grammar::number(env, tape).out is Ok {
        lemma_digit_is_rendered(env, n1, b);
        let n2 = grammar::number(env, n1).tape;
        if grammar::number(env, n1).out is Ok {
            lemma_digit_is_rendered(env, n2, c);
            let n3 = grammar::number(env, n2).tape;
            if grammar::number(env, n2).out is Ok {
                lemma_digit_is_rendered(env, n3, d);
            }
        }
    }
}

// ---------------------------------------------------------------------------
// Names
// ---------------------------------------------------------------------------

/// A run ends at the first byte that cannot stand in a name.
proof fn lemma_run_ends(input: Seq<u8>, pos: int, end: int)
    requires
        0 <= pos <= end < input.len(),
        forall|i: int| pos <= i < end ==> grammar::literal_byte(#[trigger] input[i]),
        !grammar::literal_byte(input[end]),
    ensures
        grammar::literal_run(input, pos) == end - pos,
    decreases end - pos,
{
    if pos < end {
        lemma_run_ends(input, pos + 1, end);
    }
}

/// A run of bytes that can stand in a name ends where an `@` stands.
pub proof fn lemma_run_of_name(input: Seq<u8>, pos: int, end: int)
    requires
        0 <= pos <= end < input.len(),
        forall|i: int| pos <= i < end ==> can_name(#[trigger] input[i]),
        input[end] == '@' as u8,
    ensures
        grammar::literal_run(input, pos) == end - pos,
{
    assert forall|i: int| pos <= i < end implies grammar::literal_byte(#[trigger] input[i]) by {
        assert(can_name(input[i]));
    }
    lemma_run_ends(input, pos, end);
}

/// A byte that can stand in a name: a letter, a digit, or one of `_`, `$`, `<`, `>`.
pub open spec fn can_name(byte: u8) -> bool {
    ||| 'a' as u8 <= byte <= 'z' as u8
    ||| 'A' as u8 <= byte <= 'Z' as u8
    ||| '0' as u8 <= byte <= '9' as u8
    ||| byte == '_' as u8
    ||| byte == '$' as u8
    ||| byte == '<' as u8
    ||| byte == '>' as u8
}

/// A name is read up to its `@`, whatever its length. It is learned, so that a
/// back-reference can reach it, and what is learned and what is returned are the
/// bytes of the name.
pub proof fn lemma_name_is_read_whole(env: Env, tape: Tape, names: Table, end: int)
    requires
        env.input.len() <= usize::MAX,
        names.well_formed(),
        tape.pos < end < env.input.len(),
        forall|i: int| tape.pos <= i < end ==> can_name(#[trigger] env.input[i]),
        env.input[end] == '@' as u8,
        grammar::literal(env, tape, names).out is Ok,
    ensures
        ({
            let read = grammar::literal(env, tape, names);
            let name = read.out->Ok_0;
            &&& read.tape.pos == end + 1
            &&& name.len() == end - tape.pos
            &&& forall|i: int|
                0 <= i < name.len() ==> #[trigger] name[i] == env.input[tape.pos + i] as char
            &&& read.names.num == names.num + 1
            &&& read.names.slots[names.num as int] == name
            &&& forall|i: int|
                0 <= i < names.num ==> #[trigger] read.names.slots[i] == names.slots[i]
            &&& names.start == 0 && names.num <= usize::MAX ==> read.names.reference(names.num)
                == Ok::<Text, ParseFailure>(name)
        }),
{
    reveal(grammar::literal);
    reveal(Ledger::produce);
    assert forall|i: int| tape.pos <= i < end implies grammar::literal_byte(
        #[trigger] env.input[i],
    ) by {
        assert(can_name(env.input[i]));
    }
    lemma_run_ends(env.input, tape.pos as int, end);
    assert(env.at(end as usize, 0) == Some('@' as u8));
}

// ---------------------------------------------------------------------------
// Pieces
// ---------------------------------------------------------------------------

/// The number of characters in front of piece `index`.
pub open spec fn before_piece(parts: Seq<&str>, index: int) -> int
    decreases index,
{
    if index <= 0 {
        0
    } else {
        before_piece(parts, index - 1) + parts[index - 1]@.len()
    }
}

/// Pieces that are written one after the other all stand in the whole, in order, and
/// nothing else does.
pub proof fn lemma_pieces_are_complete(parts: Seq<&str>, count: nat)
    requires
        count <= parts.len(),
    ensures
        text::joined(parts, count).len() == before_piece(parts, count as int),
        forall|i: int|
            0 <= i < count ==> holds_at(
                text::joined(parts, count),
                #[trigger] before_piece(parts, i),
                parts[i]@,
            ),
    decreases count,
{
    if count == 1 {
        let whole = text::joined(parts, count);
        assert(before_piece(parts, 0) == 0);
        assert(before_piece(parts, 1) == parts[0]@.len());
        assert(whole.subrange(0, whole.len() as int) =~= whole);
    } else if count > 1 {
        let whole = text::joined(parts, count);
        let front = text::joined(parts, (count - 1) as nat);
        lemma_pieces_are_complete(parts, (count - 1) as nat);
        assert forall|i: int| 0 <= i < count implies holds_at(
            whole,
            #[trigger] before_piece(parts, i),
            parts[i]@,
        ) by {
            let place = before_piece(parts, i);
            if i < count - 1 {
                assert(holds_at(front, place, parts[i]@));
                assert(whole.subrange(place, place + parts[i]@.len()) =~= front.subrange(
                    place,
                    place + parts[i]@.len(),
                ));
            } else {
                assert(whole.subrange(place, place + parts[i]@.len()) =~= parts[i]@);
            }
        }
    }
}

} // verus!
