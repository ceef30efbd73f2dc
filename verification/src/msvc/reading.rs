//! What whole encodings are read as, however many pieces they have.

use vstd::prelude::*;

use crate::cursor;
use crate::limits::MAX_BACKREFERENCES;
use crate::msvc::codes;
use crate::msvc::codes::OperatorAction;
use crate::msvc::flags::{
    UNDNAME_NAME_ONLY, UNDNAME_NO_ACCESS_SPECIFIERS, UNDNAME_NO_FUNCTION_RETURNS,
    UNDNAME_NO_MEMBER_TYPE, UNDNAME_NO_THISTYPE,
};
use crate::msvc::grammar;
use crate::msvc::grammar::{Env, Rules, State};
use crate::msvc::rendering;
use crate::msvc::state::{Grants, Ledger, Table};
use crate::text;
use crate::text::Text;

verus! {

// ---------------------------------------------------------------------------
// Qualified names
// ---------------------------------------------------------------------------

/// The number of bytes that spell the first `count` parts, each with its `@`.
pub open spec fn spelled_length(parts: Seq<Seq<u8>>, count: int) -> int
    decreases count,
{
    if count <= 0 {
        0
    } else {
        spelled_length(parts, count - 1) + parts[count - 1].len() + 1
    }
}

/// The bytes can be the spelling of a part of a name: they are not empty, all of them
/// can stand in a name, and the first is no digit, which would be a back-reference.
pub open spec fn is_part(part: Seq<u8>) -> bool {
    &&& part.len() > 0
    &&& !('0' as u8 <= part[0] <= '9' as u8)
    &&& forall|k: int| 0 <= k < part.len() ==> rendering::can_name(#[trigger] part[k])
}

/// From `pos` on the input holds the parts, an `@` behind each, and one more behind
/// the last.
pub open spec fn spells(input: Seq<u8>, pos: int, parts: Seq<Seq<u8>>) -> bool {
    &&& 0 <= pos
    &&& pos + spelled_length(parts, parts.len() as int) < input.len()
    &&& forall|i: int| 0 <= i < parts.len() ==> is_part(#[trigger] parts[i])
    &&& forall|i: int|
        0 <= i < parts.len() ==> {
            let start = pos + spelled_length(parts, i);
            input.subrange(start, start + parts[i].len() + 1) == (#[trigger] parts[i]).push(
                '@' as u8,
            )
        }
    &&& input[pos + spelled_length(parts, parts.len() as int)] == '@' as u8
}

/// The texts that the parts are rendered as.
pub open spec fn texts_of(parts: Seq<Seq<u8>>) -> Seq<Text> {
    Seq::new(parts.len(), |i: int| text::ascii(parts[i]))
}

/// Lengths are not negative, and grow.
pub proof fn lemma_spelled_length(parts: Seq<Seq<u8>>, few: int, many: int)
    requires
        0 <= few <= many <= parts.len(),
    ensures
        0 <= spelled_length(parts, few),
        spelled_length(parts, few) + (many - few) <= spelled_length(parts, many),
    decreases many,
{
    if few < many {
        lemma_spelled_length(parts, few, many - 1);
    } else if few > 0 {
        lemma_spelled_length(parts, few - 1, few - 1);
    }
}

/// The parts behind the first are spelled behind it.
pub proof fn lemma_rest_length(parts: Seq<Seq<u8>>, count: int)
    requires
        0 <= count < parts.len(),
    ensures
        spelled_length(parts, count + 1) == parts[0].len() + 1 + spelled_length(
            parts.drop_first(),
            count,
        ),
    decreases count,
{
    if count > 0 {
        lemma_rest_length(parts, count - 1);
        assert(parts.drop_first()[count - 1] == parts[count]);
    } else {
        assert(spelled_length(parts, 0) == 0);
        assert(spelled_length(parts, 1) == parts[0].len() + 1);
    }
}

/// What spells several parts spells the first and, behind it, the others.
pub proof fn lemma_spells_rest(input: Seq<u8>, pos: int, parts: Seq<Seq<u8>>)
    requires
        parts.len() > 0,
        spells(input, pos, parts),
    ensures
        spells(input, pos + parts[0].len() + 1, parts.drop_first()),
        pos + parts[0].len() + 1 < input.len(),
        forall|k: int|
            pos <= k < pos + parts[0].len() ==> rendering::can_name(#[trigger] input[k]),
        input[pos + parts[0].len()] == '@' as u8,
        !('0' as u8 <= input[pos] <= '9' as u8),
        input[pos] != '?' as u8,
        input[pos] != '@' as u8,
        input.subrange(pos, pos + parts[0].len()) == parts[0],
{
    let rest = parts.drop_first();
    let next = pos + parts[0].len() + 1;
    assert(spelled_length(parts, 0) == 0);
    lemma_rest_length(parts, parts.len() - 1);
    lemma_spelled_length(rest, 0, rest.len() as int);
    let first = input.subrange(pos, pos + parts[0].len() + 1);
    assert(first == parts[0].push('@' as u8));
    assert forall|k: int| pos <= k < pos + parts[0].len() implies rendering::can_name(
        #[trigger] input[k],
    ) by {
        assert(first[k - pos] == input[k]);
        assert(rendering::can_name(parts[0][k - pos]));
    }
    assert(first[parts[0].len() as int] == input[pos + parts[0].len()]);
    assert(is_part(parts[0]));
    assert(first[0] == input[pos]);
    assert(rendering::can_name(parts[0][0]));
    assert(input.subrange(pos, pos + parts[0].len()) =~= parts[0]) by {
        assert forall|k: int| 0 <= k < parts[0].len() implies input.subrange(
            pos,
            pos + parts[0].len(),
        )[k] == parts[0][k] by {
            assert(first[k] == input[pos + k]);
        }
    }
    assert forall|i: int| 0 <= i < rest.len() implies is_part(#[trigger] rest[i]) by {
        assert(rest[i] == parts[i + 1]);
    }
    assert forall|i: int| 0 <= i < rest.len() implies ({
        let start = next + spelled_length(rest, i);
        input.subrange(start, start + rest[i].len() + 1) == (#[trigger] rest[i]).push('@' as u8)
    }) by {
        assert(rest[i] == parts[i + 1]);
        lemma_rest_length(parts, i);
    }
}

/// Reading one part learns it and puts it on the stack.
pub proof fn lemma_reads_part(
    env: Env,
    st: State,
    part: Seq<u8>,
    width: usize,
    has_previous: bool,
)
    requires
        env.input.len() <= usize::MAX,
        st.names.well_formed(),
        st.stack.well_formed(),
        is_part(part),
        st.pos() + part.len() < env.input.len(),
        forall|k: int|
            st.pos() <= k < st.pos() + part.len() ==> rendering::can_name(#[trigger] env.input[k]),
        env.input.subrange(st.pos() as int, st.pos() + part.len()) == part,
        env.input[st.pos() + part.len()] == '@' as u8,
        grammar::literal_component(env, st, width, has_previous).out is Ok,
    ensures
        ({
            let after = grammar::literal_component(env, st, width, has_previous).st;
            &&& after.pos() == st.pos() + part.len() + 1
            &&& after.names.well_formed()
            &&& after.stack.well_formed()
            &&& after.stack.num == st.stack.num + 1
            &&& after.stack.slots[st.stack.num as int] == text::ascii(part)
            &&& after.names.num == st.names.num + 1
            &&& after.names.slots[st.names.num as int] == text::ascii(part)
            &&& forall|i: int|
                0 <= i < st.stack.num ==> #[trigger] after.stack.slots[i] == st.stack.slots[i]
            &&& forall|i: int|
                0 <= i < st.names.num ==> #[trigger] after.names.slots[i] == st.names.slots[i]
            &&& after.name_pos == st.name_pos
            &&& after.stack.start == st.stack.start
            &&& after.names.start == st.names.start
        }),
{
    let end = st.pos() + part.len();
    let read = grammar::literal(env, st.tape, st.names);
    rendering::lemma_name_is_read_whole(env, st.tape, st.names, end as int);
    let name = read.out->Ok_0;
    assert(name =~= text::ascii(part)) by {
        assert forall|k: int| 0 <= k < part.len() implies name[k] == part[k] as char by {
            assert(part[k] == env.input[st.pos() + k]);
        }
    }
    reveal(grammar::literal);
    reveal(Ledger::produce);
}

/// Parts that are spelled one after the other are read one after the other, up to the
/// `@` behind the last. Each is learned and put on the stack, in this order, and what
/// was there before stays.
pub proof fn lemma_parts_are_read_in_order(
    env: Env,
    rules: Rules,
    st: State,
    checkpoint: usize,
    width: usize,
    parts: Seq<Seq<u8>>,
)
    requires
        env.input.len() <= usize::MAX,
        st.names.well_formed(),
        st.stack.well_formed(),
        spells(env.input, st.pos() as int, parts),
        grammar::components(env, rules, st, checkpoint, width).out is Ok,
    ensures
        ({
            let after = grammar::components(env, rules, st, checkpoint, width).st;
            let count = parts.len() as int;
            &&& after.pos() == st.pos() + spelled_length(parts, count) + 1
            &&& after.stack.num == st.stack.num + count
            &&& after.names.num == st.names.num + count
            &&& after.stack.well_formed()
            &&& after.names.well_formed()
            &&& after.name_pos == st.name_pos
            &&& after.stack.start == st.stack.start
            &&& after.names.start == st.names.start
            &&& forall|i: int|
                0 <= i < count ==> after.stack.slots[st.stack.num + i] == text::ascii(
                    #[trigger] parts[i],
                )
            &&& forall|i: int|
                0 <= i < count ==> after.names.slots[st.names.num + i] == text::ascii(
                    #[trigger] parts[i],
                )
            &&& forall|i: int|
                0 <= i < st.stack.num ==> #[trigger] after.stack.slots[i] == st.stack.slots[i]
        }),
    decreases parts.len(),
{
    reveal_with_fuel(grammar::components, 2);
    let has_previous = st.stack.num != checkpoint;
    if parts.len() == 0 {
        assert(spelled_length(parts, 0) == 0);
        assert(env.at(st.pos(), 0) == Some('@' as u8));
    } else {
        lemma_spells_rest(env.input, st.pos() as int, parts);
        let rest = parts.drop_first();
        let code = env.input[st.pos() as int];
        assert(env.at(st.pos(), 0) == Some(code));
        let next = grammar::literal_component(env, st, width, has_previous);
        assert(next.out is Ok);
        lemma_reads_part(env, st, parts[0], width, has_previous);
        let next_width = next.out->Ok_0;
        assert(grammar::components(env, rules, st, checkpoint, width) == grammar::components(
            env,
            rules,
            next.st,
            checkpoint,
            next_width,
        ));
        lemma_parts_are_read_in_order(env, rules, next.st, checkpoint, next_width, rest);
        let after = grammar::components(env, rules, st, checkpoint, width).st;
        lemma_rest_length(parts, parts.len() - 1);
        assert forall|i: int| 0 <= i < parts.len() implies after.stack.slots[st.stack.num + i]
            == text::ascii(#[trigger] parts[i]) by {
            if i > 0 {
                assert(rest[i - 1] == parts[i]);
                assert(next.st.stack.num + (i - 1) == st.stack.num + i);
            } else {
                assert(after.stack.slots[st.stack.num as int]
                    == next.st.stack.slots[st.stack.num as int]);
            }
        }
        assert forall|i: int| 0 <= i < parts.len() implies after.names.slots[st.names.num + i]
            == text::ascii(#[trigger] parts[i]) by {
            if i > 0 {
                assert(rest[i - 1] == parts[i]);
                assert(next.st.names.num + (i - 1) == st.names.num + i);
            } else {
                lemma_names_stay(
                    env,
                    rules,
                    next.st,
                    checkpoint,
                    next_width,
                    rest,
                    st.names.num as int,
                );
            }
        }
        assert forall|i: int| 0 <= i < st.stack.num implies #[trigger] after.stack.slots[i]
            == st.stack.slots[i] by {
            assert(after.stack.slots[i] == next.st.stack.slots[i]);
        }
    }
}

/// Names that were learned before stay learned.
proof fn lemma_names_stay(
    env: Env,
    rules: Rules,
    st: State,
    checkpoint: usize,
    width: usize,
    parts: Seq<Seq<u8>>,
    index: int,
)
    requires
        env.input.len() <= usize::MAX,
        st.names.well_formed(),
        st.stack.well_formed(),
        spells(env.input, st.pos() as int, parts),
        grammar::components(env, rules, st, checkpoint, width).out is Ok,
        0 <= index < st.names.num,
    ensures
        grammar::components(env, rules, st, checkpoint, width).st.names.slots[index]
            == st.names.slots[index],
    decreases parts.len(),
{
    reveal_with_fuel(grammar::components, 2);
    let has_previous = st.stack.num != checkpoint;
    if parts.len() == 0 {
        assert(spelled_length(parts, 0) == 0);
        assert(env.at(st.pos(), 0) == Some('@' as u8));
    } else {
        lemma_spells_rest(env.input, st.pos() as int, parts);
        let code = env.input[st.pos() as int];
        assert(env.at(st.pos(), 0) == Some(code));
        let next = grammar::literal_component(env, st, width, has_previous);
        lemma_reads_part(env, st, parts[0], width, has_previous);
        lemma_names_stay(
            env,
            rules,
            next.st,
            checkpoint,
            next.out->Ok_0,
            parts.drop_first(),
            index,
        );
    }
}

/// A name depends on the components it is made of, not on where they stand.
pub proof fn lemma_qualified_shifted(slots: Seq<Text>, start: int, texts: Seq<Text>, end: int)
    requires
        0 <= end <= texts.len(),
        forall|i: int| 0 <= i < texts.len() ==> slots[start + i] == #[trigger] texts[i],
    ensures
        grammar::qualified(slots, start, start + end) == grammar::qualified(texts, 0, end),
    decreases end,
{
    if end > 0 {
        lemma_qualified_shifted(slots, start, texts, end - 1);
        assert(slots[start + (end - 1)] == texts[end - 1]);
        assert(slots[start + 0] == texts[0]);
    }
}

/// A qualified name that is spelled part by part is rendered with all of its parts, the
/// last that is spelled first. It is read up to the `@` behind the last part, and
/// leaves the stack as it was.
pub proof fn lemma_spelled_name_is_rendered(
    env: Env,
    rules: Rules,
    st: State,
    parts: Seq<Seq<u8>>,
)
    requires
        env.input.len() <= usize::MAX,
        st.names.well_formed(),
        st.stack.well_formed(),
        spells(env.input, st.pos() as int, parts),
        grammar::class_name(env, rules, st).out is Ok,
    ensures
        ({
            let read = grammar::class_name(env, rules, st);
            let count = parts.len() as int;
            &&& read.out->Ok_0 == grammar::qualified(texts_of(parts), 0, count)
            &&& rendering::is_qualified_name(read.out->Ok_0, texts_of(parts), 0, count)
            &&& read.st.pos() == st.pos() + spelled_length(parts, count) + 1
            &&& read.st.stack.num == st.stack.num
            &&& read.st.names.num == st.names.num + count
            &&& forall|i: int|
                0 <= i < count ==> read.st.names.slots[st.names.num + i] == text::ascii(
                    #[trigger] parts[i],
                )
        }),
{
    reveal(grammar::class_name);
    reveal(Ledger::produce);
    let checkpoint = st.stack.num;
    let collected = grammar::components(env, rules, st, checkpoint, 0);
    lemma_parts_are_read_in_order(env, rules, st, checkpoint, 0, parts);
    let texts = texts_of(parts);
    lemma_qualified_shifted(
        collected.st.stack.slots,
        checkpoint as int,
        texts,
        parts.len() as int,
    );
    rendering::lemma_is_qualified_name(texts, 0, parts.len() as int);
}

// ---------------------------------------------------------------------------
// Functions
// ---------------------------------------------------------------------------

/// The code of a type that is neither `void` nor an ellipsis and needs no other byte.
pub open spec fn is_argument_code(code: u8) -> bool {
    ||| 'C' as u8 <= code <= 'K' as u8
    ||| 'M' as u8 <= code <= 'O' as u8
}

/// The name of the type of a code.
pub open spec fn name_of_type(code: u8) -> Text {
    codes::ordinary_primitive(code as char)->0@
}

/// The names of the types of several codes.
pub open spec fn names_of_types(list: Seq<u8>) -> Seq<Text> {
    Seq::new(list.len(), |i: int| name_of_type(list[i]))
}

/// Names of types are neither `void` nor an ellipsis.
pub proof fn lemma_name_of_type(code: u8)
    requires
        is_argument_code(code),
    ensures
        codes::ordinary_primitive(code as char) is Some,
        name_of_type(code) != "void"@,
        name_of_type(code) != "..."@,
{
    reveal_strlit("void");
    reveal_strlit("...");
    reveal_strlit("signed char");
    reveal_strlit("char");
    reveal_strlit("unsigned char");
    reveal_strlit("short");
    reveal_strlit("unsigned short");
    reveal_strlit("int");
    reveal_strlit("unsigned int");
    reveal_strlit("long");
    reveal_strlit("unsigned long");
    reveal_strlit("float");
    reveal_strlit("double");
    reveal_strlit("long double");
    assert("void"@[0] == 'v');
    assert("..."@[0] == '.');
    let name = name_of_type(code);
    assert(name[0] == 's' || name[0] == 'c' || name[0] == 'u' || name[0] == 'i' || name[0] == 'l'
        || name[0] == 'f' || name[0] == 'd');
}

/// A type with a one-letter code is read as its name, and nothing else changes.
pub proof fn lemma_reads_type(env: Env, st: State, types: Option<Table>, in_args: bool, code: u8)
    requires
        st.pos() < env.input.len() <= usize::MAX,
        env.input[st.pos() as int] == code,
        is_argument_code(code) || code == 'X' as u8,
        grammar::datatype(grammar::rules(env, 0), st, types, in_args).out is Ok,
    ensures
        ({
            let read = grammar::datatype(grammar::rules(env, 0), st, types, in_args);
            &&& read.out->Ok_0.left == name_of_type(code)
            &&& read.out->Ok_0.right is None
            &&& read.st.pos() == st.pos() + 1
            &&& read.st.stack == st.stack
            &&& read.st.names == st.names
            &&& read.st.name_pos == st.name_pos
            &&& read.types == types
        }),
{
    reveal_with_fuel(grammar::rules, 2);
    reveal(grammar::coded_type);
    reveal(Ledger::produce);
    assert(env.at(st.pos(), 0) == Some(code));
}

/// Types with one-letter codes are read one after the other, up to the `@` and the `Z`
/// that close a list of parameters.
pub proof fn lemma_reads_arguments(
    env: Env,
    st: State,
    types: Option<Table>,
    before: Seq<Text>,
    list: Seq<u8>,
)
    requires
        st.pos() + list.len() + 1 < env.input.len() <= usize::MAX,
        forall|i: int| 0 <= i < list.len() ==> is_argument_code(#[trigger] list[i]),
        forall|i: int| 0 <= i < list.len() ==> #[trigger] list[i] == env.input[st.pos() + i],
        env.input[st.pos() + list.len()] == '@' as u8,
        env.input[st.pos() + list.len() + 1] == 'Z' as u8,
        grammar::argument_list(
            env,
            grammar::rules(env, 0),
            st,
            types,
            before,
            true,
            '(' as u8,
            ')' as u8,
        ).out is Ok,
    ensures
        ({
            let read = grammar::argument_list(
                env,
                grammar::rules(env, 0),
                st,
                types,
                before,
                true,
                '(' as u8,
                ')' as u8,
            );
            &&& read.out->Ok_0 == grammar::arguments_text(
                before + names_of_types(list),
                '(' as u8,
                ')' as u8,
            )
            &&& read.st.pos() == st.pos() + list.len() + 2
            &&& read.st.stack == st.stack
            &&& read.st.names == st.names
            &&& read.st.name_pos == st.name_pos
        }),
    decreases list.len(),
{
    reveal_with_fuel(grammar::argument_list, 2);
    reveal(Ledger::produce);
    let rules = grammar::rules(env, 0);
    if list.len() == 0 {
        assert(env.at(st.pos(), 0) == Some('@' as u8));
        assert(env.at(st.skip(1).pos(), 0) == Some('Z' as u8));
        assert(before + names_of_types(list) =~= before);
    } else {
        let code = list[0];
        assert(code == env.input[st.pos() + 0]);
        assert(env.at(st.pos(), 0) == Some(code));
        lemma_name_of_type(code);
        let st1 = st.paid(st.tape.ledger.after_request(1));
        lemma_reads_type(env, st1, types, true, code);
        let parsed = grammar::datatype(rules, st1, types, true);
        let argument = parsed.out->Ok_0;
        assert(argument.left + argument.right_text() =~= name_of_type(code));
        let rendered = parsed.st.emit(env, argument.left + argument.right_text());
        let rest = list.drop_first();
        assert forall|i: int| 0 <= i < rest.len() implies is_argument_code(#[trigger] rest[i])
            && rest[i] == env.input[rendered.st.pos() + i] by {
            assert(rest[i] == list[i + 1]);
            assert(list[i + 1] == env.input[st.pos() + (i + 1)]);
        }
        lemma_reads_arguments(
            env,
            rendered.st,
            parsed.types,
            before.push(name_of_type(code)),
            rest,
        );
        assert(before.push(name_of_type(code)) + names_of_types(rest) =~= before + names_of_types(list)) by {
            assert forall|i: int| 0 <= i < rest.len() implies names_of_types(rest)[i] == names_of_types(
                list,
            )[i + 1] by {
                assert(rest[i] == list[i + 1]);
            }
        }
    }
}

/// A list of parameters that holds nothing but `void` is empty.
pub proof fn lemma_reads_no_arguments(env: Env, st: State, types: Option<Table>)
    requires
        st.pos() + 1 < env.input.len() <= usize::MAX,
        env.input[st.pos() as int] == 'X' as u8,
        env.input[st.pos() + 1] == 'Z' as u8,
        grammar::argument_list(
            env,
            grammar::rules(env, 0),
            st,
            types,
            Seq::empty(),
            true,
            '(' as u8,
            ')' as u8,
        ).out is Ok,
    ensures
        ({
            let read = grammar::argument_list(
                env,
                grammar::rules(env, 0),
                st,
                types,
                Seq::empty(),
                true,
                '(' as u8,
                ')' as u8,
            );
            &&& read.out->Ok_0 == grammar::arguments_text(Seq::empty(), '(' as u8, ')' as u8)
            &&& read.st.pos() == st.pos() + 2
            &&& read.st.stack == st.stack
            &&& read.st.names == st.names
            &&& read.st.name_pos == st.name_pos
        }),
{
    reveal_with_fuel(grammar::argument_list, 2);
    reveal(Ledger::produce);
    assert(env.at(st.pos(), 0) == Some('X' as u8));
    let st1 = st.paid(st.tape.ledger.after_request(1));
    lemma_reads_type(env, st1, types, true, 'X' as u8);
    let parsed = grammar::datatype(grammar::rules(env, 0), st1, types, true);
    assert(env.at(parsed.st.pos(), 0) == Some('Z' as u8));
}

/// From `pos` on the input holds the parameters of a function: the code of each and the
/// `@` behind them, or `X` where there are none, and a `Z`.
pub open spec fn holds_parameters(input: Seq<u8>, pos: int, list: Seq<u8>) -> bool {
    if list.len() == 0 {
        &&& pos + 1 < input.len()
        &&& input[pos] == 'X' as u8
        &&& input[pos + 1] == 'Z' as u8
    } else {
        &&& pos + list.len() + 1 < input.len()
        &&& forall|i: int| 0 <= i < list.len() ==> is_argument_code(#[trigger] list[i])
        &&& forall|i: int| 0 <= i < list.len() ==> #[trigger] list[i] == input[pos + i]
        &&& input[pos + list.len()] == '@' as u8
        &&& input[pos + list.len() + 1] == 'Z' as u8
    }
}

/// The signature of a free function is read as its name, which is on the stack, its
/// result and its parameters.
#[verifier::rlimit(40)]
proof fn lemma_reads_signature(
    env: Env,
    st: State,
    parts: Seq<Seq<u8>>,
    result: u8,
    list: Seq<u8>,
)
    requires
        env.flags == 0,
        env.input.len() <= usize::MAX,
        st.stack.well_formed(),
        st.stack.num == parts.len(),
        forall|i: int| 0 <= i < parts.len() ==> st.stack.slots[i] == text::ascii(#[trigger] parts[i]),
        st.pos() + 3 < env.input.len(),
        env.input[st.pos() as int] == 'Y' as u8,
        env.input[st.pos() + 1] == 'A' as u8,
        env.input[st.pos() + 2] == result,
        is_argument_code(result) || result == 'X' as u8,
        holds_parameters(env.input, st.pos() + 3, list),
        grammar::method_signature(env, grammar::rules(env, 0), st, false, false).out is Ok,
    ensures
        ({
            let name = grammar::method_signature(
                env,
                grammar::rules(env, 0),
                st,
                false,
                false,
            ).out->Ok_0;
            let head = name_of_type(result) + " __cdecl "@;
            &&& name.full == head + grammar::qualified(texts_of(parts), 0, parts.len() as int)
                + grammar::arguments_text(names_of_types(list), '(' as u8, ')' as u8)
            &&& name.selector_start == text::byte_width(head)
        }),
{
    reveal(grammar::method_signature);
    reveal(grammar::method_parts);
    reveal(grammar::return_type);
    reveal(grammar::method_arguments);
    reveal(Ledger::produce);
    let flags = env.flags;
    assert(forall|mask: u16| #[trigger] (0u16 & mask) == 0u16) by (bit_vector);
    let rules = grammar::rules(env, 0);
    let pos = st.pos();
    assert(env.at(pos, 0) == Some('Y' as u8));
    let headed = grammar::method_head(env, st);
    let head = headed.out->Ok_0;
    assert(headed.out is Ok);
    assert(head.kind == codes::method_kind('Y'));
    assert(headed.st.pos() == pos + 1);
    let texts = texts_of(parts);
    assert(head.name == grammar::qualified(texts, 0, parts.len() as int)) by {
        assert forall|i: int| 0 <= i < texts.len() implies st.stack.slots[0 + i]
            == #[trigger] texts[i] by {
            assert(texts[i] == text::ascii(parts[i]));
        }
        lemma_qualified_shifted(st.stack.slots, 0, texts, parts.len() as int);
    }
    let st1 = headed.st;
    assert(env.at(st1.pos(), 0) == Some('A' as u8));
    let convention = codes::convention('A' as u8, flags)->Ok_0;
    let st2 = st1.skip(1);
    assert(env.at(st2.pos(), 0) == Some(result));
    lemma_reads_type(env, st2, grammar::no_types(), false, result);
    let returned = grammar::return_type(env, rules, st2, grammar::no_types(), true);
    assert(returned.st.pos() == pos + 3);
    let listed = grammar::argument_list(
        env,
        rules,
        returned.st,
        returned.types,
        Seq::empty(),
        true,
        '(' as u8,
        ')' as u8,
    );
    assert(listed.out is Ok);
    if list.len() == 0 {
        lemma_reads_no_arguments(env, returned.st, returned.types);
        assert(names_of_types(list) =~= Seq::empty());
    } else {
        lemma_reads_arguments(env, returned.st, returned.types, Seq::empty(), list);
        assert(Seq::empty() + names_of_types(list) =~= names_of_types(list));
    }
    let parsed = grammar::method_parts(env, rules, st, false, false);
    let whole = parsed.out->Ok_0;
    let prefix = grammar::method_prefix(env, whole);
    reveal_strlit("");
    reveal_strlit(" ");
    reveal_strlit("__cdecl");
    reveal_strlit(" __cdecl ");
    lemma_result_is_named(result);
    assert(prefix =~= name_of_type(result) + " __cdecl "@);
    let class = grammar::qualified(texts, 0, parts.len() as int);
    let shown = grammar::arguments_text(names_of_types(list), '(' as u8, ')' as u8);
    assert(grammar::method_selector(env, whole) =~= class + shown);
    assert(prefix + (class + shown) =~= prefix + class + shown);
    text::lemma_byte_width_concat(prefix, class + shown);
    let name = grammar::method_signature(env, rules, st, false, false).out->Ok_0;
    assert(name.full == prefix + (class + shown));
    assert(text::byte_width(prefix) <= usize::MAX);
    assert(name.selector_start == text::byte_width(prefix));
}

/// Names of types are not empty.
pub proof fn lemma_result_is_named(code: u8)
    requires
        is_argument_code(code) || code == 'X' as u8,
    ensures
        name_of_type(code).len() > 0,
{
    reveal_strlit("void");
    reveal_strlit("signed char");
    reveal_strlit("char");
    reveal_strlit("unsigned char");
    reveal_strlit("short");
    reveal_strlit("unsigned short");
    reveal_strlit("int");
    reveal_strlit("unsigned int");
    reveal_strlit("long");
    reveal_strlit("unsigned long");
    reveal_strlit("float");
    reveal_strlit("double");
    reveal_strlit("long double");
}

/// The symbol of a free function is demangled to the function: whatever the number of
/// its scopes and of its parameters, the result, the calling convention, the qualified
/// name and the list of all parameters stand in this order, and the selector starts at
/// the name.
pub proof fn lemma_function_is_demangled(
    input: Seq<u8>,
    grants: Grants,
    parts: Seq<Seq<u8>>,
    result: u8,
    list: Seq<u8>,
)
    requires
        parts.len() > 0,
        ({
            let behind = 1 + spelled_length(parts, parts.len() as int) + 1;
            &&& input.len() > 0
            &&& input[0] == '?' as u8
            &&& parts[0][0] != '$' as u8
            &&& spells(input, 1, parts)
            &&& behind + 3 < input.len()
            &&& input[behind] == 'Y' as u8
            &&& input[behind + 1] == 'A' as u8
            &&& input[behind + 2] == result
            &&& is_argument_code(result) || result == 'X' as u8
            &&& holds_parameters(input, behind + 3, list)
        }),
        grammar::demangled(input, 0, grants) is Ok,
    ensures
        ({
            let name = grammar::demangled(input, 0, grants)->Ok_0;
            let head = name_of_type(result) + " __cdecl "@;
            &&& name.full == head + grammar::qualified(texts_of(parts), 0, parts.len() as int)
                + grammar::arguments_text(names_of_types(list), '(' as u8, ')' as u8)
            &&& name.selector_start == text::byte_width(head)
        }),
{
    reveal(grammar::symbol);
    reveal(grammar::symbol_inner);
    assert(forall|mask: u16| #[trigger] (0u16 & mask) == 0u16) by (bit_vector);
    let env = Env { input, flags: grammar::effective_flags(0), grants };
    let rules = grammar::rules(env, 0);
    let named = grammar::components(env, rules, grammar::initial().skip(1), 0, 0);
    lemma_reads_symbol_name(env, parts);
    assert(named.out is Ok);
    lemma_parts_on_stack(env, parts);
    assert(env.at(named.st.pos(), 0) == Some('Y' as u8));
    lemma_reads_signature(env, named.st, parts, result, list);
}

// ---------------------------------------------------------------------------
// Members and variables
// ---------------------------------------------------------------------------

/// The qualifiers that a code stands for.
pub open spec fn qualifier_text(code: u8) -> Text {
    if code == 'B' as u8 {
        "const"@
    } else if code == 'C' as u8 {
        "volatile"@
    } else if code == 'D' as u8 {
        "const volatile"@
    } else {
        Seq::empty()
    }
}

/// The name of the type that a function returns. An `@` stands for `void`.
pub open spec fn result_name(code: u8) -> Text {
    if code == '@' as u8 {
        "void"@
    } else {
        name_of_type(code)
    }
}

/// What stands in front of the name of a function: its access, whether it is static or
/// virtual, its result with a blank, where it is shown, and how the function is called.
/// The flags leave out what they name.
pub open spec fn function_head(
    flags: u16,
    kind: u8,
    result: Option<Text>,
    convention: u8,
) -> Text {
    let method = codes::method_kind(kind as char);
    let called = codes::convention(convention, flags)->Ok_0;
    (if flags & UNDNAME_NO_ACCESS_SPECIFIERS != 0 {
        Seq::empty()
    } else {
        method.access@
    }) + (if flags & UNDNAME_NO_MEMBER_TYPE != 0 {
        Seq::empty()
    } else {
        method.member_type@
    }) + (match result {
        Some(name) => if flags & UNDNAME_NO_FUNCTION_RETURNS != 0 {
            Seq::empty()
        } else {
            name + seq![' ']
        },
        None => Seq::empty(),
    }) + (match called.calling_convention {
        Some(word) => word@ + seq![' '],
        None => Seq::empty(),
    }) + (match called.exported {
        Some(word) => word@,
        None => Seq::empty(),
    })
}

/// What stands behind the name of a function: its parameters, and the qualifiers of
/// `this`, where it has one and they say something. Where only the name is asked for,
/// nothing does.
pub open spec fn function_tail(flags: u16, kind: u8, this: u8, list: Seq<u8>) -> Text {
    if flags & UNDNAME_NAME_ONLY != 0 {
        Seq::empty()
    } else {
        grammar::arguments_text(names_of_types(list), '(' as u8, ')' as u8) + this_text(
            flags,
            kind,
            this,
        )
    }
}

/// The qualifiers of `this`, where the function has one, they say something and they are
/// not left out.
pub open spec fn this_text(flags: u16, kind: u8, this: u8) -> Text {
    if codes::method_kind(kind as char).has_this && this != 'A' as u8 && flags
        & UNDNAME_NO_THISTYPE == 0 {
        qualifier_text(this) + seq![' ']
    } else {
        Seq::empty()
    }
}

/// From `pos` on the input holds the signature of a function without adjustments: its
/// kind, the qualifiers of `this` where it has one, its calling convention, its result
/// and its parameters.
pub open spec fn holds_signature(
    input: Seq<u8>,
    pos: int,
    kind: u8,
    this: u8,
    convention: u8,
    result: u8,
    list: Seq<u8>,
) -> bool {
    let method = codes::method_kind(kind as char);
    let at = pos + if method.has_this {
        2int
    } else {
        1int
    };
    &&& 'A' as u8 <= kind <= 'Z' as u8
    &&& method.thunk is None
    &&& 'A' as u8 <= this <= 'D' as u8
    &&& 'A' as u8 <= convention <= 'M' as u8
    &&& is_argument_code(result) || result == 'X' as u8 || result == '@' as u8
    &&& 0 <= pos
    &&& at + 2 < input.len()
    &&& input[pos] == kind
    &&& method.has_this ==> input[pos + 1] == this
    &&& input[at] == convention
    &&& input[at + 1] == result
    &&& holds_parameters(input, at + 2, list)
}

/// The stack holds these texts and no other.
pub open spec fn stack_holds(stack: Table, texts: Seq<Text>) -> bool {
    &&& stack.well_formed()
    &&& stack.num == texts.len()
    &&& forall|i: int| 0 <= i < texts.len() ==> stack.slots[i] == #[trigger] texts[i]
}

/// The start of a function is read: its kind, its name and the qualifiers of `this`.
proof fn lemma_reads_head(
    env: Env,
    st: State,
    texts: Seq<Text>,
    kind: u8,
    this: u8,
)
    requires
        env.input.len() <= usize::MAX,
        stack_holds(st.stack, texts),
        st.pos() + 2 < env.input.len(),
        'A' as u8 <= kind <= 'Z' as u8,
        codes::method_kind(kind as char).thunk is None,
        env.input[st.pos() as int] == kind,
        codes::method_kind(kind as char).has_this ==> env.input[st.pos() + 1] == this,
        'A' as u8 <= this <= 'D' as u8,
        grammar::method_head(env, st).out is Ok,
        grammar::this_modifier(
            env,
            grammar::method_head(env, st).st,
            codes::method_kind(kind as char).has_this,
        ).out is Ok,
    ensures
        ({
            let headed = grammar::method_head(env, st);
            let head = headed.out->Ok_0;
            let method = codes::method_kind(kind as char);
            let shown = grammar::this_modifier(env, headed.st, method.has_this);
            &&& head.kind == method
            &&& head.access == (if env.flags & UNDNAME_NO_ACCESS_SPECIFIERS != 0 {
                Seq::empty()
            } else {
                method.access@
            })
            &&& head.name == grammar::qualified(texts, 0, texts.len() as int)
            &&& shown.st.pos() == st.pos() + (if method.has_this {
                2int
            } else {
                1int
            })
            &&& shown.st.stack == st.stack
            &&& text::optional_text(shown.out->Ok_0) == this_text(env.flags, kind, this)
        }),
{
    reveal(Ledger::produce);
    reveal_strlit("");
    assert(""@ =~= Seq::empty());
    let pos = st.pos();
    let method = codes::method_kind(kind as char);
    assert(env.at(pos, 0) == Some(kind));
    let headed = grammar::method_head(env, st);
    assert(headed.out->Ok_0.name == grammar::qualified(texts, 0, texts.len() as int)) by {
        assert forall|i: int| 0 <= i < texts.len() implies st.stack.slots[0 + i]
            == #[trigger] texts[i] by {}
        lemma_qualified_shifted(st.stack.slots, 0, texts, texts.len() as int);
    }
    if method.has_this {
        let st1 = headed.st;
        assert(st1.pos() == pos + 1);
        assert(cursor::byte_at(env.input, st1.pos(), 0) == Some(this));
        reveal_strlit(" ");
        reveal_strlit("const");
        reveal_strlit("volatile");
        reveal_strlit("const volatile");
        let (read, behind) = grammar::modifier_at(env.input, env.flags, st1.pos());
        assert(read is Ok);
        assert(read->Ok_0.pointer_modifier is None);
        let shown = grammar::this_modifier(env, st1, true);
        if this != 'A' as u8 && env.flags & UNDNAME_NO_THISTYPE == 0 {
            assert(shown.out->Ok_0 is Some);
            assert(text::literal_text(read->Ok_0.qualifier) == qualifier_text(this));
            assert(text::literal_text(None) =~= Seq::empty());
            assert(qualifier_text(this) + " "@ + text::literal_text(None) =~= qualifier_text(this)
                + seq![' ']);
        }
    }
}

/// The result of a function is read.
proof fn lemma_reads_result(env: Env, st: State, result: u8)
    requires
        st.pos() < env.input.len() <= usize::MAX,
        env.input[st.pos() as int] == result,
        is_argument_code(result) || result == 'X' as u8 || result == '@' as u8,
        grammar::return_type(
            env,
            grammar::rules(env, 0),
            st,
            grammar::no_types(),
            true,
        ).out is Ok,
    ensures
        ({
            let read = grammar::return_type(
                env,
                grammar::rules(env, 0),
                st,
                grammar::no_types(),
                true,
            );
            &&& read.out->Ok_0.left == result_name(result)
            &&& read.out->Ok_0.right is None
            &&& read.st.pos() == st.pos() + 1
            &&& read.st.stack == st.stack
            &&& result_name(result).len() > 0
        }),
{
    reveal(grammar::return_type);
    reveal(Ledger::produce);
    assert(env.at(st.pos(), 0) == Some(result));
    reveal_strlit("void");
    if result != '@' as u8 {
        lemma_reads_type(env, st, grammar::no_types(), false, result);
        lemma_result_is_named(result);
    }
}

/// What is rendered before a name is the head of the function.
proof fn lemma_head_is_rendered(
    env: Env,
    whole: grammar::MethodView,
    kind: u8,
    shown: Option<Text>,
    convention: u8,
)
    requires
        whole.kind == codes::method_kind(kind as char),
        whole.access == (if env.flags & UNDNAME_NO_ACCESS_SPECIFIERS != 0 {
            Seq::empty()
        } else {
            codes::method_kind(kind as char).access@
        }),
        whole.convention == codes::convention(convention, env.flags)->Ok_0,
        shown is Some ==> shown->0.len() > 0,
        whole.result.right is None,
        whole.result.left == (if env.flags & UNDNAME_NO_FUNCTION_RETURNS != 0 || shown is None {
            Seq::empty()
        } else {
            shown->0
        }),
    ensures
        grammar::method_prefix(env, whole) == function_head(env.flags, kind, shown, convention),
{
    reveal_strlit("");
    reveal_strlit(" ");
    let prefix = grammar::method_prefix(env, whole);
    let head = function_head(env.flags, kind, shown, convention);
    assert(prefix =~= head);
}

/// What is rendered from a name on is the name, the parameters and the qualifiers of
/// `this`.
proof fn lemma_tail_is_rendered(
    env: Env,
    whole: grammar::MethodView,
    kind: u8,
    this: u8,
    list: Seq<u8>,
)
    requires
        whole.kind.has_arguments,
        whole.result.right is None,
        whole.arguments == grammar::arguments_text(names_of_types(list), '(' as u8, ')' as u8),
        text::optional_text(whole.modifier) == this_text(env.flags, kind, this),
    ensures
        grammar::method_selector(env, whole) == whole.name + function_tail(
            env.flags,
            kind,
            this,
            list,
        ),
{
    let selector = grammar::method_selector(env, whole);
    assert(selector =~= whole.name + function_tail(env.flags, kind, this, list));
}

/// The signature of a function without adjustments is read as what stands in front of
/// its name, the name, its parameters and the qualifiers of `this`.
#[verifier::rlimit(80)]
proof fn lemma_reads_method(
    env: Env,
    st: State,
    texts: Seq<Text>,
    kind: u8,
    this: u8,
    convention: u8,
    result: u8,
    list: Seq<u8>,
    no_return: bool,
)
    requires
        env.input.len() <= usize::MAX,
        stack_holds(st.stack, texts),
        holds_signature(
            env.input,
            st.pos() as int,
            kind,
            this,
            convention,
            result,
            list,
        ),
        grammar::method_signature(env, grammar::rules(env, 0), st, false, no_return).out is Ok,
    ensures
        ({
            let name = grammar::method_signature(
                env,
                grammar::rules(env, 0),
                st,
                false,
                no_return,
            ).out->Ok_0;
            let head = function_head(
                env.flags,
                kind,
                if no_return {
                    None
                } else {
                    Some(result_name(result))
                },
                convention,
            );
            &&& name.full == head + grammar::qualified(texts, 0, texts.len() as int)
                + function_tail(env.flags, kind, this, list)
            &&& name.selector_start == text::byte_width(head)
        }),
{
    reveal(grammar::method_signature);
    reveal(grammar::method_parts);
    reveal(grammar::method_arguments);
    reveal(Ledger::produce);
    let rules = grammar::rules(env, 0);
    let pos = st.pos();
    let method = codes::method_kind(kind as char);
    let headed = grammar::method_head(env, st);
    assert(env.at(pos, 0) == Some(kind));
    assert(headed.out is Ok);
    assert(headed.out->Ok_0.kind == method);
    let shown_this = grammar::this_modifier(env, headed.st, method.has_this);
    assert(shown_this.out is Ok);
    lemma_reads_head(env, st, texts, kind, this);
    let st1 = shown_this.st;
    assert(env.at(st1.pos(), 0) == Some(convention));
    let st2 = st1.skip(1);
    assert(env.at(st2.pos(), 0) == Some(result));
    let returned = grammar::return_type(env, rules, st2, grammar::no_types(), true);
    assert(returned.out is Ok);
    lemma_reads_result(env, st2, result);
    let listed = grammar::argument_list(
        env,
        rules,
        returned.st,
        returned.types,
        Seq::empty(),
        true,
        '(' as u8,
        ')' as u8,
    );
    assert(listed.out is Ok);
    if list.len() == 0 {
        lemma_reads_no_arguments(env, returned.st, returned.types);
        assert(names_of_types(list) =~= Seq::empty());
    } else {
        lemma_reads_arguments(env, returned.st, returned.types, Seq::empty(), list);
        assert(Seq::empty() + names_of_types(list) =~= names_of_types(list));
    }
    let parsed = grammar::method_parts(env, rules, st, false, no_return);
    let whole = parsed.out->Ok_0;
    let prefix = grammar::method_prefix(env, whole);
    let shown_result: Option<Text> = if no_return {
        None
    } else {
        Some(result_name(result))
    };
    let head = function_head(env.flags, kind, shown_result, convention);
    lemma_head_is_rendered(env, whole, kind, shown_result, convention);
    let class = grammar::qualified(texts, 0, texts.len() as int);
    let tail = function_tail(env.flags, kind, this, list);
    let selector = grammar::method_selector(env, whole);
    assert(whole.name == class);
    lemma_tail_is_rendered(env, whole, kind, this, list);
    assert(prefix + selector =~= head + class + tail);
    text::lemma_byte_width_concat(prefix, selector);
    let name = grammar::method_signature(env, rules, st, false, no_return).out->Ok_0;
    assert(name.full == prefix + selector);
    assert(name.selector_start == text::byte_width(prefix));
}

/// The symbol of a function without adjustments, free or a member, is demangled to the
/// function: its access, whether it is static or virtual, its result, its calling
/// convention, its qualified name, all of its parameters and the qualifiers of `this`
/// stand in this order, and the selector starts at the name. The flags leave out what
/// they name, and nothing else.
pub proof fn lemma_method_is_demangled(
    input: Seq<u8>,
    flags: u16,
    grants: Grants,
    parts: Seq<Seq<u8>>,
    kind: u8,
    this: u8,
    convention: u8,
    result: u8,
    list: Seq<u8>,
)
    requires
        parts.len() > 0,
        input.len() > 0,
        input[0] == '?' as u8,
        parts[0][0] != '$' as u8,
        spells(input, 1, parts),
        holds_signature(
            input,
            1 + spelled_length(parts, parts.len() as int) + 1,
            kind,
            this,
            convention,
            result,
            list,
        ),
        grammar::demangled(input, flags, grants) is Ok,
    ensures
        ({
            let name = grammar::demangled(input, flags, grants)->Ok_0;
            let used = grammar::effective_flags(flags);
            let head = function_head(used, kind, Some(result_name(result)), convention);
            &&& name.full == head + grammar::qualified(texts_of(parts), 0, parts.len() as int)
                + function_tail(used, kind, this, list)
            &&& name.selector_start == text::byte_width(head)
        }),
{
    reveal(grammar::symbol);
    reveal(grammar::symbol_inner);
    let env = Env { input, flags: grammar::effective_flags(flags), grants };
    let rules = grammar::rules(env, 0);
    let named = grammar::components(env, rules, grammar::initial().skip(1), 0, 0);
    lemma_reads_symbol_name(env, parts);
    assert(named.out is Ok);
    lemma_parts_on_stack(env, parts);
    assert(env.at(named.st.pos(), 0) == Some(kind));
    let texts = texts_of(parts);
    assert forall|i: int| 0 <= i < texts.len() implies named.st.stack.slots[i]
        == #[trigger] texts[i] by {
        assert(texts[i] == text::ascii(parts[i]));
    }
    lemma_reads_method(
        env,
        named.st,
        texts,
        kind,
        this,
        convention,
        result,
        list,
        false,
    );
}

/// The texts on the stack of an operator in a class: the name of the operator, and the
/// parts of the name of the class.
pub open spec fn operator_texts(name: Text, parts: Seq<Seq<u8>>) -> Seq<Text> {
    seq![name] + texts_of(parts)
}

/// What is pushed on an empty stack is its only text.
proof fn lemma_pushes_first(env: Env, st: State, first: Text)
    requires
        st.stack == Table::empty(MAX_BACKREFERENCES),
        st.push_stack(env, first).out is Ok,
    ensures
        ({
            let after = st.push_stack(env, first).st;
            &&& after.stack.num == 1
            &&& after.stack.slots[0] == first
            &&& after.stack.well_formed()
            &&& after.names == st.names
            &&& after.pos() == st.pos()
        }),
{
    reveal(Ledger::produce);
}

/// The parts of a scope are put on the stack behind the name of the operator.
proof fn lemma_reads_scope_parts(env: Env, st: State, first: Text, parts: Seq<Seq<u8>>)
    requires
        env.input.len() <= usize::MAX,
        st.stack.num == 1,
        st.stack.slots[0] == first,
        st.stack.well_formed(),
        st.names.well_formed(),
        spells(env.input, st.pos() as int, parts),
        grammar::components(env, grammar::rules(env, 0), st, 1, 0).out is Ok,
    ensures
        ({
            let after = grammar::components(env, grammar::rules(env, 0), st, 1, 0).st;
            &&& after.pos() == st.pos() + spelled_length(parts, parts.len() as int) + 1
            &&& stack_holds(after.stack, operator_texts(first, parts))
            &&& after.names.well_formed()
        }),
{
    let rules = grammar::rules(env, 0);
    lemma_parts_are_read_in_order(env, rules, st, 1, 0, parts);
    let after = grammar::components(env, rules, st, 1, 0).st;
    let texts = operator_texts(first, parts);
    assert forall|i: int| 0 <= i < texts.len() implies after.stack.slots[i]
        == #[trigger] texts[i] by {
        if i > 0 {
            assert(texts[i] == text::ascii(parts[i - 1]));
            assert(after.stack.slots[st.stack.num + (i - 1)] == text::ascii(parts[i - 1]));
        }
    }
}

/// The scope of an operator is read behind its name.
proof fn lemma_reads_scope(
    env: Env,
    st: State,
    action: OperatorAction,
    first: Text,
    parts: Seq<Seq<u8>>,
)
    requires
        env.input.len() <= usize::MAX,
        st.stack == Table::empty(MAX_BACKREFERENCES),
        st.names.well_formed(),
        parts.len() > 0,
        parts[0][0] != '$' as u8,
        spells(env.input, st.pos() as int, parts),
        match action {
            OperatorAction::Simple(name) => first == name@,
            OperatorAction::Constructor => first == "--null--"@,
            OperatorAction::Destructor => first == "--null--"@,
            _ => false,
        },
        grammar::operator_scope(env, grammar::rules(env, 0), st, action, None).out is Ok,
    ensures
        ({
            let after = grammar::operator_scope(
                env,
                grammar::rules(env, 0),
                st,
                action,
                None,
            ).st;
            &&& after.pos() == st.pos() + spelled_length(parts, parts.len() as int) + 1
            &&& stack_holds(after.stack, operator_texts(first, parts))
            &&& after.names.well_formed()
        }),
{
    reveal(grammar::operator_scope);
    let rules = grammar::rules(env, 0);
    let pushed = st.push_stack(env, first);
    let st1 = pushed.st;
    assert(pushed.out is Ok);
    lemma_pushes_first(env, st, first);
    lemma_spells_rest(env.input, st.pos() as int, parts);
    let code = env.input[st.pos() as int];
    assert(env.at(st1.pos(), 0) == Some(code));
    assert(env.input.subrange(st.pos() as int, st.pos() + parts[0].len())[0] == code);
    assert(code != '$' as u8);
    assert(!env.reads(st1.pos(), 0, '@'));
    assert(!env.reads(st1.pos(), 0, '$'));
    assert(grammar::operator_scope(env, rules, st, action, None) == grammar::components(
        env,
        rules,
        st1,
        1,
        0,
    ));
    lemma_reads_scope_parts(env, st1, first, parts);
}

/// The symbol of an operator that is a member is demangled to the operator: it stands
/// where the name of a function would. A constructor is named after its class, and a
/// destructor after its class behind a tilde, and neither shows a result.
#[verifier::rlimit(60)]
pub proof fn lemma_operator_is_demangled(
    input: Seq<u8>,
    flags: u16,
    grants: Grants,
    code: u8,
    parts: Seq<Seq<u8>>,
    kind: u8,
    this: u8,
    convention: u8,
    result: u8,
    list: Seq<u8>,
)
    requires
        parts.len() > 0,
        2 < input.len(),
        input[0] == '?' as u8,
        input[1] == '?' as u8,
        input[2] == code,
        '0' as u8 <= code <= '9' as u8 || 'A' as u8 <= code <= 'Z' as u8,
        code != 'B' as u8,
        parts[0][0] != '$' as u8,
        spells(input, 3, parts),
        holds_signature(
            input,
            3 + spelled_length(parts, parts.len() as int) + 1,
            kind,
            this,
            convention,
            result,
            list,
        ),
        grammar::demangled(input, flags, grants) is Ok,
    ensures
        ({
            let name = grammar::demangled(input, flags, grants)->Ok_0;
            let class = text::ascii(parts[0]);
            let special = code == '0' as u8 || code == '1' as u8;
            let own: Text = if code == '0' as u8 {
                class
            } else if code == '1' as u8 {
                seq!['~'] + class
            } else {
                codes::primary_operator(code as char)->0->Simple_0@
            };
            let used = grammar::effective_flags(flags);
            let head = function_head(
                used,
                kind,
                if special {
                    None
                } else {
                    Some(result_name(result))
                },
                convention,
            );
            &&& name.full == head + grammar::qualified(
                operator_texts(own, parts),
                0,
                parts.len() as int + 1,
            ) + function_tail(used, kind, this, list)
            &&& name.selector_start == text::byte_width(head)
        }),
{
    reveal(grammar::symbol);
    reveal(grammar::symbol_inner);
    reveal(grammar::operator_symbol);
    reveal(grammar::operator_body);
    reveal(grammar::spelled_name);
    reveal(grammar::operator_signature);
    reveal(Ledger::produce);
    reveal_strlit("~");
    assert("~"@ =~= seq!['~']);
    let env = Env { input, flags: grammar::effective_flags(flags), grants };
    let rules = grammar::rules(env, 0);
    let st = grammar::initial();
    assert(env.at(0, 0) == Some('?' as u8));
    assert(env.at(0, 1) == Some('?' as u8));
    assert(env.at(0, 2) == Some(code));
    let action = codes::primary_operator(code as char)->0;
    let st1 = st.skip(3);
    assert(env.at(st.skip(2).pos(), 0) == Some(code));
    let special = code == '0' as u8 || code == '1' as u8;
    let first: Text = if special {
        "--null--"@
    } else {
        action->Simple_0@
    };
    let scoped = grammar::operator_scope(env, rules, st1, action, None);
    assert(scoped.out is Ok);
    lemma_reads_scope(env, st1, action, first, parts);
    let complete = grammar::class_operator(env, scoped.st, action);
    assert(complete.out is Ok);
    let class = text::ascii(parts[0]);
    let own: Text = if code == '0' as u8 {
        class
    } else if code == '1' as u8 {
        seq!['~'] + class
    } else {
        first
    };
    let texts = operator_texts(own, parts);
    let before = operator_texts(first, parts);
    assert(before[1] == class);
    assert(stack_holds(complete.st.stack, texts)) by {
        assert forall|i: int| 0 <= i < texts.len() implies complete.st.stack.slots[i]
            == #[trigger] texts[i] by {
            assert(i > 0 ==> texts[i] == before[i]);
            assert(scoped.st.stack.slots[i] == before[i]);
        }
    }
    assert(env.at(complete.st.pos(), 0) == Some(kind));
    lemma_reads_method(
        env,
        complete.st,
        texts,
        kind,
        this,
        convention,
        result,
        list,
        special,
    );
}

/// A symbol that starts with a spelled name is read by its name first.
pub proof fn lemma_reads_symbol_name(env: Env, parts: Seq<Seq<u8>>)
    requires
        parts.len() > 0,
        0 < env.input.len() <= usize::MAX,
        env.input[0] == '?' as u8,
        parts[0][0] != '$' as u8,
        spells(env.input, 1, parts),
    ensures
        env.reads(0, 0, '?'),
        !env.reads(0, 1, '$'),
        !env.reads(0, 1, '?'),
        grammar::ordinary_name(env, grammar::rules(env, 0), grammar::initial())
            == grammar::components(
            env,
            grammar::rules(env, 0),
            grammar::initial().skip(1),
            0,
            0,
        ),
{
    reveal(grammar::ordinary_name);
    lemma_spells_rest(env.input, 1, parts);
    assert(env.at(0, 0) == Some('?' as u8));
    assert(env.at(0, 1) == Some(env.input[1]));
    assert(env.input.subrange(1, 1 + parts[0].len() as int)[0] == env.input[1]);
    assert(env.at(grammar::initial().skip(1).pos(), 0) == Some(env.input[1]));
}

/// The parts of a name that was read are on the stack.
pub proof fn lemma_parts_on_stack(env: Env, parts: Seq<Seq<u8>>)
    requires
        env.input.len() <= usize::MAX,
        spells(env.input, 1, parts),
        grammar::components(
            env,
            grammar::rules(env, 0),
            grammar::initial().skip(1),
            0,
            0,
        ).out is Ok,
    ensures
        ({
            let named = grammar::components(
                env,
                grammar::rules(env, 0),
                grammar::initial().skip(1),
                0,
                0,
            ).st;
            &&& named.pos() == 1 + spelled_length(parts, parts.len() as int) + 1
            &&& named.stack.well_formed()
            &&& named.stack.num == parts.len()
            &&& named.name_pos == 0
            &&& forall|i: int|
                0 <= i < parts.len() ==> named.stack.slots[i] == text::ascii(#[trigger] parts[i])
        }),
{
    let body = grammar::initial().skip(1);
    let rules = grammar::rules(env, 0);
    lemma_parts_are_read_in_order(env, rules, body, 0, 0, parts);
    let named = grammar::components(env, rules, body, 0, 0).st;
    assert forall|i: int| 0 <= i < parts.len() implies named.stack.slots[i] == text::ascii(
        #[trigger] parts[i],
    ) by {
        assert(named.stack.slots[body.stack.num + i] == text::ascii(parts[i]));
    }
}

/// The access of a variable, and whether it is a static member.
pub open spec fn storage_text(flags: u16, code: u8) -> Text {
    (if flags & UNDNAME_NO_ACCESS_SPECIFIERS != 0 {
        Seq::empty()
    } else if code == '0' as u8 {
        "private: "@
    } else if code == '1' as u8 {
        "protected: "@
    } else if code == '2' as u8 {
        "public: "@
    } else {
        Seq::empty()
    }) + (if flags & UNDNAME_NO_MEMBER_TYPE == 0 && (code == '0' as u8 || code == '1' as u8 || code
        == '2' as u8) {
        "static "@
    } else {
        Seq::empty()
    })
}

/// The type of a variable and its qualifiers, each with a blank behind it. Where only
/// the name is asked for, they are left out.
pub open spec fn data_head(flags: u16, datatype: u8, qualifier: u8) -> Text {
    if flags & UNDNAME_NAME_ONLY != 0 {
        Seq::empty()
    } else {
        name_of_type(datatype) + seq![' '] + (if qualifier == 'A' as u8 {
            Seq::empty()
        } else {
            qualifier_text(qualifier) + seq![' ']
        })
    }
}

/// A variable is rendered as its storage, its type, its qualifiers and its name.
proof fn lemma_data_is_rendered(
    env: Env,
    whole: grammar::DataView,
    class: Text,
    code: u8,
    datatype: u8,
    qualifier: u8,
)
    requires
        '0' as u8 <= code <= '5' as u8,
        'A' as u8 <= qualifier <= 'D' as u8,
        whole.datatype.left == name_of_type(datatype),
        name_of_type(datatype).len() > 0,
        whole.datatype.right is None,
        whole.modifier == qualifier_text(qualifier),
        whole.modifier.len() == 0 <==> qualifier == 'A' as u8,
    ensures
        grammar::data_text(env, code as char, class, whole) == storage_text(env.flags, code)
            + data_head(env.flags, datatype, qualifier) + class,
{
    reveal_strlit("");
    reveal_strlit(" ");
    let full = grammar::data_text(env, code as char, class, whole);
    let expected = storage_text(env.flags, code) + data_head(env.flags, datatype, qualifier)
        + class;
    assert(full =~= expected);
}

/// A variable is read as its storage, its type, its qualifiers and its name.
#[verifier::rlimit(60)]
proof fn lemma_reads_data(
    env: Env,
    st: State,
    parts: Seq<Seq<u8>>,
    code: u8,
    datatype: u8,
    qualifier: u8,
)
    requires
        env.input.len() <= usize::MAX,
        st.stack.well_formed(),
        st.stack.num == parts.len(),
        st.name_pos == 0,
        forall|i: int| 0 <= i < parts.len() ==> st.stack.slots[i] == text::ascii(#[trigger] parts[i]),
        st.pos() + 2 < env.input.len(),
        '0' as u8 <= code <= '5' as u8,
        is_argument_code(datatype),
        'A' as u8 <= qualifier <= 'D' as u8,
        env.input[st.pos() as int] == code,
        env.input[st.pos() + 1] == datatype,
        env.input[st.pos() + 2] == qualifier,
        grammar::data_signature(env, grammar::rules(env, 0), st).out is Ok,
    ensures
        ({
            let name = grammar::data_signature(env, grammar::rules(env, 0), st).out->Ok_0;
            &&& name.full == storage_text(env.flags, code) + data_head(
                env.flags,
                datatype,
                qualifier,
            ) + grammar::qualified(texts_of(parts), 0, parts.len() as int)
            &&& name.selector_start == 0
        }),
{
    reveal(grammar::data_signature);
    reveal(grammar::data_parts);
    reveal(grammar::typed_data);
    reveal(Ledger::produce);
    let rules = grammar::rules(env, 0);
    let pos = st.pos();
    assert(env.at(pos, 0) == Some(code));
    let rendered = grammar::render_class(env, st, 0);
    let texts = texts_of(parts);
    assert(rendered.out->Ok_0 == grammar::qualified(texts, 0, parts.len() as int)) by {
        assert forall|i: int| 0 <= i < texts.len() implies st.stack.slots[0 + i]
            == #[trigger] texts[i] by {
            assert(texts[i] == text::ascii(parts[i]));
        }
        lemma_qualified_shifted(st.stack.slots, 0, texts, parts.len() as int);
    }
    let st1 = rendered.st.skip(1);
    assert(env.at(st1.pos(), 0) == Some(datatype));
    let typed = grammar::typed_data(env, rules, st1);
    assert(typed.out is Ok);
    let parsed = grammar::datatype(rules, st1, grammar::no_types(), false);
    assert(parsed.out is Ok);
    lemma_reads_type(env, st1, grammar::no_types(), false, datatype);
    assert(cursor::byte_at(env.input, parsed.st.pos(), 0) == Some(qualifier));
    reveal_strlit("");
    reveal_strlit(" ");
    reveal_strlit("const");
    reveal_strlit("volatile");
    reveal_strlit("const volatile");
    lemma_result_is_named(datatype);
    let whole = grammar::data_parts(env, rules, st1, code as char).out->Ok_0;
    assert(whole.datatype.left == name_of_type(datatype));
    assert(whole.datatype.right is None);
    assert(whole.modifier =~= qualifier_text(qualifier));
    let class = grammar::qualified(texts, 0, parts.len() as int);
    lemma_data_is_rendered(env, whole, class, code, datatype, qualifier);
}

/// The symbol of a variable is demangled to the variable: its access and `static` where
/// it is a member, its type, its qualifiers and its qualified name, however many scopes
/// the name has. The flags leave out what they name, and nothing else.
pub proof fn lemma_variable_is_demangled(
    input: Seq<u8>,
    flags: u16,
    grants: Grants,
    parts: Seq<Seq<u8>>,
    code: u8,
    datatype: u8,
    qualifier: u8,
)
    requires
        parts.len() > 0,
        input.len() > 0,
        input[0] == '?' as u8,
        parts[0][0] != '$' as u8,
        spells(input, 1, parts),
        '0' as u8 <= code <= '5' as u8,
        is_argument_code(datatype),
        'A' as u8 <= qualifier <= 'D' as u8,
        ({
            let behind = 1 + spelled_length(parts, parts.len() as int) + 1;
            &&& behind + 2 < input.len()
            &&& input[behind] == code
            &&& input[behind + 1] == datatype
            &&& input[behind + 2] == qualifier
        }),
        grammar::demangled(input, flags, grants) is Ok,
    ensures
        ({
            let name = grammar::demangled(input, flags, grants)->Ok_0;
            let used = grammar::effective_flags(flags);
            &&& name.full == storage_text(used, code) + data_head(used, datatype, qualifier)
                + grammar::qualified(texts_of(parts), 0, parts.len() as int)
            &&& name.selector_start == 0
        }),
{
    reveal(grammar::symbol);
    reveal(grammar::symbol_inner);
    let env = Env { input, flags: grammar::effective_flags(flags), grants };
    let rules = grammar::rules(env, 0);
    let named = grammar::components(env, rules, grammar::initial().skip(1), 0, 0);
    lemma_reads_symbol_name(env, parts);
    assert(named.out is Ok);
    lemma_parts_on_stack(env, parts);
    assert(env.at(named.st.pos(), 0) == Some(code));
    lemma_reads_data(env, named.st, parts, code, datatype, qualifier);
}

/// The class that a table is for, where the table names one, as it stands behind the
/// name of the table.
pub open spec fn owner_text(owner: Option<Seq<Seq<u8>>>) -> Text {
    match owner {
        None => Seq::empty(),
        Some(parts) => "{for `"@ + grammar::qualified(texts_of(parts), 0, parts.len() as int)
            + "'}"@,
    }
}

/// From `pos` on the input holds the class that a table is for, or an `@` where the
/// table names none.
pub open spec fn holds_owner(input: Seq<u8>, pos: int, owner: Option<Seq<Seq<u8>>>) -> bool {
    match owner {
        None => pos < input.len() && input[pos] == '@' as u8,
        Some(parts) => spells(input, pos, parts) && parts.len() > 0,
    }
}

/// What follows the code of a table is read as its qualifiers and the class that it is
/// for.
proof fn lemma_reads_table(
    env: Env,
    st: State,
    code: u8,
    qualifier: u8,
    owner: Option<Seq<Seq<u8>>>,
)
    requires
        env.input.len() <= usize::MAX,
        st.names.well_formed(),
        st.stack.well_formed(),
        st.pos() < env.input.len(),
        code == '6' as u8 || code == '7' as u8,
        'A' as u8 <= qualifier <= 'D' as u8,
        env.input[st.pos() as int] == qualifier,
        holds_owner(env.input, st.pos() + 1, owner),
        grammar::data_parts(env, grammar::rules(env, 0), st, code as char).out is Ok,
    ensures
        ({
            let whole = grammar::data_parts(env, grammar::rules(env, 0), st, code as char).out->Ok_0;
            &&& whole.modifier == qualifier_text(qualifier)
            &&& whole.datatype.left.len() == 0
            &&& whole.datatype.right_text() == owner_text(owner)
        }),
{
    reveal(grammar::data_parts);
    reveal(Ledger::produce);
    let rules = grammar::rules(env, 0);
    assert(cursor::byte_at(env.input, st.pos(), 0) == Some(qualifier));
    let read = st.lift(grammar::modifier(env, st.tape));
    assert(read.out is Ok);
    assert(read.st.pos() == st.pos() + 1);
    assert(text::literal_text(read.out->Ok_0.qualifier) =~= qualifier_text(qualifier));
    match owner {
        None => {
            assert(env.at(read.st.pos(), 0) == Some('@' as u8));
            assert(env.reads(read.st.pos(), 0, '@'));
        },
        Some(parts) => {
            assert(spelled_length(parts, 0) == 0);
            assert(parts[0].len() > 0);
            let pos = read.st.pos() as int;
            let spelled = env.input.subrange(pos, pos + parts[0].len() + 1);
            lemma_spelled_length(parts, 1, parts.len() as int);
            assert(spelled_length(parts, 1) == parts[0].len() + 1);
            assert(spelled == parts[0].push('@' as u8));
            assert(spelled[0] == env.input[pos]);
            assert(env.input[pos] == parts[0][0]);
            assert(!env.reads(read.st.pos(), 0, '@'));
            let class = grammar::class_name(env, rules, read.st);
            assert(class.out is Ok);
            lemma_spelled_name_is_rendered(env, rules, read.st, parts);
        },
    }
}

/// A table of a class, such as one for virtual calls, is rendered as its qualifiers, its
/// name and the class that it is for, where it names one. Where only the name is asked
/// for, nothing else is rendered.
pub proof fn lemma_table_is_rendered(
    env: Env,
    st: State,
    texts: Seq<Text>,
    code: u8,
    qualifier: u8,
    owner: Option<Seq<Seq<u8>>>,
)
    requires
        env.input.len() <= usize::MAX,
        stack_holds(st.stack, texts),
        st.names.well_formed(),
        st.pos() + 1 < env.input.len(),
        code == '6' as u8 || code == '7' as u8,
        'A' as u8 <= qualifier <= 'D' as u8,
        env.input[st.pos() as int] == code,
        env.input[st.pos() + 1] == qualifier,
        holds_owner(env.input, st.pos() + 2, owner),
        grammar::data_signature(env, grammar::rules(env, 0), st).out is Ok,
    ensures
        ({
            let name = grammar::data_signature(env, grammar::rules(env, 0), st).out->Ok_0;
            let class = grammar::qualified(texts, 0, texts.len() as int);
            name.full == if env.flags & UNDNAME_NAME_ONLY != 0 {
                class
            } else if qualifier == 'A' as u8 {
                class + owner_text(owner)
            } else {
                qualifier_text(qualifier) + seq![' '] + class + owner_text(owner)
            }
        }),
{
    reveal(grammar::data_signature);
    reveal(Ledger::produce);
    let rules = grammar::rules(env, 0);
    assert(env.at(st.pos(), 0) == Some(code));
    let rendered = grammar::render_class(env, st, 0);
    let class = grammar::qualified(texts, 0, texts.len() as int);
    lemma_qualified_shifted(st.stack.slots, 0, texts, texts.len() as int);
    assert(rendered.out->Ok_0 == class);
    let st1 = rendered.st.skip(1);
    let whole = grammar::data_parts(env, rules, st1, code as char).out->Ok_0;
    lemma_reads_table(env, st1, code, qualifier, owner);
    reveal_strlit("");
    reveal_strlit(" ");
    reveal_strlit("const");
    reveal_strlit("volatile");
    reveal_strlit("const volatile");
    let full = grammar::data_text(env, code as char, class, whole);
    if env.flags & UNDNAME_NAME_ONLY != 0 {
        assert(full =~= class);
    } else if qualifier == 'A' as u8 {
        assert(full =~= class + owner_text(owner));
    } else {
        assert(full =~= qualifier_text(qualifier) + seq![' '] + class + owner_text(owner));
    }
}

/// A variable that has neither a type nor qualifiers is rendered as its name.
pub proof fn lemma_untyped_variable_is_its_name(env: Env, st: State, texts: Seq<Text>, code: u8)
    requires
        env.input.len() <= usize::MAX,
        stack_holds(st.stack, texts),
        st.pos() < env.input.len(),
        code == '8' as u8 || code == '9' as u8,
        env.input[st.pos() as int] == code,
        grammar::data_signature(env, grammar::rules(env, 0), st).out is Ok,
    ensures
        grammar::data_signature(env, grammar::rules(env, 0), st).out->Ok_0.full
            == grammar::qualified(texts, 0, texts.len() as int),
{
    reveal(grammar::data_signature);
    reveal(grammar::data_parts);
    reveal(Ledger::produce);
    assert(env.at(st.pos(), 0) == Some(code));
    let rendered = grammar::render_class(env, st, 0);
    let class = grammar::qualified(texts, 0, texts.len() as int);
    lemma_qualified_shifted(st.stack.slots, 0, texts, texts.len() as int);
    assert(rendered.out->Ok_0 == class);
    let whole = grammar::data_parts(
        env,
        grammar::rules(env, 0),
        rendered.st.skip(1),
        code as char,
    ).out->Ok_0;
    reveal_strlit("");
    assert(grammar::data_text(env, code as char, class, whole) =~= class);
}

} // verus!
