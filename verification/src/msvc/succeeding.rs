//! Which encodings are read to their end.

use vstd::prelude::*;
use vstd::utf8::{is_ascii_chars, is_ascii_chars_encode_utf8};

use crate::limits::{MAX_ARGUMENTS, MAX_INPUT_BYTES, MAX_OUTPUT_BYTES};
use crate::msvc::grammar;
use crate::msvc::grammar::{Env, Rules, State};
use crate::msvc::reading;
use crate::msvc::rendering;
use crate::msvc::state::{Grants, Ledger, Table};
use crate::text;
use crate::text::Text;

verus! {

/// The allocator grants every request.
pub open spec fn grants_all(grants: Grants) -> bool {
    forall|n: nat| #[trigger] grants(n)
}

/// `amount` more bytes fit what may be produced.
pub open spec fn affords(ledger: Ledger, amount: int) -> bool {
    ledger.limit == MAX_OUTPUT_BYTES && ledger.used + amount <= MAX_OUTPUT_BYTES
}

/// A text that is afforded is produced, and costs its width.
proof fn lemma_produces(ledger: Ledger, grants: Grants, value: Text)
    requires
        grants_all(grants),
        affords(ledger, text::byte_width(value) as int),
    ensures
        ledger.produce(grants, value).out is Ok,
        ledger.produce(grants, value).out->Ok_0 == value,
        ledger.produce(grants, value).ledger.used == ledger.used + text::byte_width(value),
        ledger.produce(grants, value).ledger.limit == ledger.limit,
{
    reveal(Ledger::produce);
}

/// A table that has room takes a text that is afforded.
proof fn lemma_pushes(table: Table, grants: Grants, ledger: Ledger, value: Text)
    requires
        grants_all(grants),
        table.well_formed(),
        table.num < table.limit,
        affords(ledger, text::byte_width(value) as int),
    ensures
        table.push(grants, ledger, value).out is Ok,
        table.push(grants, ledger, value).ledger.used == ledger.used + text::byte_width(value),
        table.push(grants, ledger, value).ledger.limit == ledger.limit,
        table.push(grants, ledger, value).table == table.put(value),
        table.put(value).well_formed(),
        table.put(value).num == table.num + 1,
        table.put(value).limit == table.limit,
{
    let num = (table.num + 1) as usize;
    lemma_produces(ledger.after_request(table.missing(num)), grants, value);
}

/// A part of a name is as wide as its bytes.
proof fn lemma_part_width(part: Seq<u8>)
    requires
        reading::is_part(part),
    ensures
        text::byte_width(text::ascii(part)) == part.len(),
{
    assert forall|i: int| 0 <= i < part.len() implies part[i] < 128 by {
        assert(rendering::can_name(part[i]));
    }
    text::lemma_ascii_encoding(part);
}

/// A part of a name is read wherever there is room for it.
proof fn lemma_part_succeeds(
    env: Env,
    st: State,
    part: Seq<u8>,
    width: usize,
    has_previous: bool,
)
    requires
        grants_all(env.grants),
        env.input.len() <= usize::MAX,
        st.names.well_formed(),
        st.stack.well_formed(),
        st.names.num < st.names.limit,
        st.stack.num < st.stack.limit,
        reading::is_part(part),
        st.pos() + part.len() < env.input.len(),
        forall|k: int|
            st.pos() <= k < st.pos() + part.len() ==> rendering::can_name(#[trigger] env.input[k]),
        env.input.subrange(st.pos() as int, st.pos() + part.len()) == part,
        env.input[st.pos() + part.len()] == '@' as u8,
        affords(st.tape.ledger, 3 * part.len() as int),
        width + part.len() + 2 <= MAX_OUTPUT_BYTES,
    ensures
        ({
            let read = grammar::literal_component(env, st, width, has_previous);
            &&& read.out is Ok
            &&& read.out->Ok_0 <= width + part.len() + 2
            &&& read.st.tape.ledger.used == st.tape.ledger.used + 3 * part.len()
            &&& read.st.tape.ledger.limit == st.tape.ledger.limit
            &&& read.st.names.limit == st.names.limit
            &&& read.st.stack.limit == st.stack.limit
        }),
{
    reveal(grammar::literal);
    let end = st.pos() + part.len();
    rendering::lemma_run_of_name(env.input, st.pos() as int, end as int);
    assert(env.at(end as usize, 0) == Some('@' as u8));
    let name = text::ascii(part);
    lemma_part_width(part);
    let stored = st.names.push(env.grants, st.tape.ledger, name);
    lemma_pushes(st.names, env.grants, st.tape.ledger, name);
    lemma_produces(stored.ledger, env.grants, name);
    let read = st.lift_named(grammar::literal(env, st.tape, st.names));
    assert(read.out is Ok);
    lemma_pushes(st.stack, env.grants, read.st.tape.ledger, name);
}

/// Parts that are spelled one after the other are all read wherever there is room.
proof fn lemma_parts_succeed(
    env: Env,
    rules: Rules,
    st: State,
    checkpoint: usize,
    width: usize,
    parts: Seq<Seq<u8>>,
)
    requires
        grants_all(env.grants),
        env.input.len() <= usize::MAX,
        st.names.well_formed(),
        st.stack.well_formed(),
        st.names.num + parts.len() <= st.names.limit,
        st.stack.num + parts.len() <= st.stack.limit,
        reading::spells(env.input, st.pos() as int, parts),
        parts.len() > 0 || st.stack.num != checkpoint,
        checkpoint <= st.stack.num,
        affords(st.tape.ledger, 3 * reading::spelled_length(parts, parts.len() as int)),
        width + 2 * reading::spelled_length(parts, parts.len() as int) <= MAX_OUTPUT_BYTES,
    ensures
        ({
            let read = grammar::components(env, rules, st, checkpoint, width);
            &&& read.out is Ok
            &&& read.st.tape.ledger.used <= st.tape.ledger.used + 3 * reading::spelled_length(
                parts,
                parts.len() as int,
            )
            &&& read.st.tape.ledger.limit == st.tape.ledger.limit
        }),
    decreases parts.len(),
{
    reveal_with_fuel(grammar::components, 2);
    let has_previous = st.stack.num != checkpoint;
    let total = reading::spelled_length(parts, parts.len() as int);
    if parts.len() == 0 {
        assert(total == 0);
        assert(env.at(st.pos(), 0) == Some('@' as u8));
    } else {
        reading::lemma_spells_rest(env.input, st.pos() as int, parts);
        let rest = parts.drop_first();
        reading::lemma_rest_length(parts, parts.len() - 1);
        reading::lemma_spelled_length(rest, 0, rest.len() as int);
        let left = reading::spelled_length(rest, rest.len() as int);
        assert(total == parts[0].len() + 1 + left);
        let code = env.input[st.pos() as int];
        assert(env.at(st.pos(), 0) == Some(code));
        assert(reading::is_part(parts[0]));
        lemma_part_succeeds(env, st, parts[0], width, has_previous);
        reading::lemma_reads_part(env, st, parts[0], width, has_previous);
        let next = grammar::literal_component(env, st, width, has_previous);
        lemma_parts_succeed(env, rules, next.st, checkpoint, next.out->Ok_0, rest);
    }
}

/// The names of types are short, and as wide as they are long.
proof fn lemma_type_width(code: u8)
    requires
        reading::is_argument_code(code) || code == 'X' as u8,
    ensures
        text::byte_width(reading::name_of_type(code)) <= 14,
{
    reveal_strlit("void");
    reveal_strlit("signed char");
    reveal_strlit("char");
    reveal_strlit("unsigned char");
    reveal_strlit("short");
    reveal_strlit("unsigned short");
    reveal_strlit("int");
    reveal_strlit("unsigned int");
    reveal_strlit("long");
    reveal_strlit("unsigned long");
    reveal_strlit("float");
    reveal_strlit("double");
    reveal_strlit("long double");
    let name = reading::name_of_type(code);
    assert(is_ascii_chars(name));
    is_ascii_chars_encode_utf8(name);
}

/// A type with a one-letter code is read wherever its name is afforded.
proof fn lemma_type_succeeds(env: Env, st: State, types: Option<Table>, in_args: bool, code: u8)
    requires
        grants_all(env.grants),
        st.pos() < env.input.len() <= usize::MAX,
        env.input[st.pos() as int] == code,
        reading::is_argument_code(code) || code == 'X' as u8,
        affords(st.tape.ledger, 14),
    ensures
        ({
            let read = grammar::datatype(grammar::rules(env, 0), st, types, in_args);
            &&& read.out is Ok
            &&& read.st.tape.ledger.used <= st.tape.ledger.used + 14
            &&& read.st.tape.ledger.limit == st.tape.ledger.limit
        }),
{
    reveal_with_fuel(grammar::rules, 2);
    reveal(grammar::coded_type);
    assert(env.at(st.pos(), 0) == Some(code));
    lemma_type_width(code);
    lemma_produces(st.tape.ledger, env.grants, reading::name_of_type(code));
}

/// Lists of short texts are short.
proof fn lemma_list_width(list: Seq<Text>)
    requires
        forall|i: int| 0 <= i < list.len() ==> text::byte_width(#[trigger] list[i]) <= 14,
    ensures
        text::byte_width(grammar::comma_separated(list)) <= 15 * list.len(),
    decreases list.len(),
{
    if list.len() == 0 {
        text::lemma_byte_width_empty(grammar::comma_separated(list));
    } else if list.len() > 1 {
        let front = list.drop_last();
        assert forall|i: int| 0 <= i < front.len() implies text::byte_width(
            #[trigger] front[i],
        ) <= 14 by {
            assert(front[i] == list[i]);
        }
        lemma_list_width(front);
        let shorter = grammar::comma_separated(front);
        assert(is_ascii_chars(seq![',']));
        is_ascii_chars_encode_utf8(seq![',']);
        text::lemma_byte_width_concat(shorter, seq![',']);
        text::lemma_byte_width_concat(shorter + seq![','], list.last());
        assert(list.last() == list[list.len() - 1]);
    }
}

/// A list of parameters in brackets is short.
proof fn lemma_parameters_width(list: Seq<Text>)
    requires
        forall|i: int| 0 <= i < list.len() ==> text::byte_width(#[trigger] list[i]) <= 14,
    ensures
        text::byte_width(grammar::arguments_text(list, '(' as u8, ')' as u8)) <= 15 * list.len()
            + 6,
{
    lemma_list_width(list);
    reveal_strlit("void");
    assert(is_ascii_chars("void"@));
    is_ascii_chars_encode_utf8("void"@);
    let open: Text = seq![('(' as u8) as char];
    let close: Text = seq![(')' as u8) as char];
    assert(is_ascii_chars(open));
    is_ascii_chars_encode_utf8(open);
    assert(is_ascii_chars(close));
    is_ascii_chars_encode_utf8(close);
    let inner = if list.len() == 0 || (list.len() == 1 && list[0] == "void"@) {
        "void"@
    } else {
        grammar::comma_separated(list)
    };
    assert(grammar::arguments_text(list, '(' as u8, ')' as u8) == open + inner + close);
    text::lemma_byte_width_concat(open, inner);
    text::lemma_byte_width_concat(open + inner, close);
}

/// Parameters with one-letter codes are all read wherever there is room.
proof fn lemma_arguments_succeed(
    env: Env,
    st: State,
    types: Option<Table>,
    before: Seq<Text>,
    list: Seq<u8>,
)
    requires
        grants_all(env.grants),
        st.pos() + list.len() + 1 < env.input.len() <= usize::MAX,
        before.len() + list.len() <= MAX_ARGUMENTS,
        forall|i: int| 0 <= i < before.len() ==> text::byte_width(#[trigger] before[i]) <= 14,
        forall|i: int| 0 <= i < list.len() ==> reading::is_argument_code(#[trigger] list[i]),
        forall|i: int| 0 <= i < list.len() ==> #[trigger] list[i] == env.input[st.pos() + i],
        env.input[st.pos() + list.len()] == '@' as u8,
        env.input[st.pos() + list.len() + 1] == 'Z' as u8,
        affords(st.tape.ledger, (28 * list.len() + 15 * (before.len() + list.len()) + 6) as int),
    ensures
        ({
            let read = grammar::argument_list(
                env,
                grammar::rules(env, 0),
                st,
                types,
                before,
                true,
                '(' as u8,
                ')' as u8,
            );
            &&& read.out is Ok
            &&& read.st.tape.ledger.used <= st.tape.ledger.used + 28 * list.len() + 15 * (
            before.len() + list.len()) + 6
            &&& read.st.tape.ledger.limit == st.tape.ledger.limit
        }),
    decreases list.len(),
{
    reveal_with_fuel(grammar::argument_list, 2);
    let rules = grammar::rules(env, 0);
    if list.len() == 0 {
        assert(env.at(st.pos(), 0) == Some('@' as u8));
        assert(env.at(st.skip(1).pos(), 0) == Some('Z' as u8));
        lemma_parameters_width(before);
        lemma_produces(
            st.tape.ledger,
            env.grants,
            grammar::arguments_text(before, '(' as u8, ')' as u8),
        );
    } else {
        let code = list[0];
        assert(code == env.input[st.pos() + 0]);
        assert(env.at(st.pos(), 0) == Some(code));
        reading::lemma_name_of_type(code);
        lemma_type_width(code);
        let st1 = st.paid(st.tape.ledger.after_request(1));
        lemma_type_succeeds(env, st1, types, true, code);
        reading::lemma_reads_type(env, st1, types, true, code);
        let parsed = grammar::datatype(rules, st1, types, true);
        let argument = parsed.out->Ok_0;
        let name = reading::name_of_type(code);
        assert(argument.left + argument.right_text() =~= name);
        lemma_produces(parsed.st.tape.ledger, env.grants, name);
        let rendered = parsed.st.emit(env, argument.left + argument.right_text());
        let rest = list.drop_first();
        assert forall|i: int| 0 <= i < rest.len() implies reading::is_argument_code(
            #[trigger] rest[i],
        ) && rest[i] == env.input[rendered.st.pos() + i] by {
            assert(rest[i] == list[i + 1]);
            assert(list[i + 1] == env.input[st.pos() + (i + 1)]);
        }
        let longer = before.push(name);
        assert forall|i: int| 0 <= i < longer.len() implies text::byte_width(
            #[trigger] longer[i],
        ) <= 14 by {
            if i < before.len() {
                assert(longer[i] == before[i]);
            }
        }
        lemma_arguments_succeed(env, rendered.st, parsed.types, longer, rest);
    }
}

/// An empty list of parameters is read wherever there is room.
proof fn lemma_no_arguments_succeed(env: Env, st: State, types: Option<Table>)
    requires
        grants_all(env.grants),
        st.pos() + 1 < env.input.len() <= usize::MAX,
        env.input[st.pos() as int] == 'X' as u8,
        env.input[st.pos() + 1] == 'Z' as u8,
        affords(st.tape.ledger, 20),
    ensures
        ({
            let read = grammar::argument_list(
                env,
                grammar::rules(env, 0),
                st,
                types,
                Seq::empty(),
                true,
                '(' as u8,
                ')' as u8,
            );
            &&& read.out is Ok
            &&& read.st.tape.ledger.used <= st.tape.ledger.used + 20
            &&& read.st.tape.ledger.limit == st.tape.ledger.limit
        }),
{
    reveal_with_fuel(grammar::argument_list, 2);
    assert(env.at(st.pos(), 0) == Some('X' as u8));
    let st1 = st.paid(st.tape.ledger.after_request(1));
    lemma_type_succeeds(env, st1, types, true, 'X' as u8);
    reading::lemma_reads_type(env, st1, types, true, 'X' as u8);
    let parsed = grammar::datatype(grammar::rules(env, 0), st1, types, true);
    assert(env.at(parsed.st.pos(), 0) == Some('Z' as u8));
    lemma_parameters_width(Seq::empty());
    lemma_produces(
        parsed.st.tape.ledger,
        env.grants,
        grammar::arguments_text(Seq::empty(), '(' as u8, ')' as u8),
    );
}

/// The parts of a name are together no wider than what spells them.
proof fn lemma_name_width(slots: Seq<Text>, parts: Seq<Seq<u8>>, count: int)
    requires
        0 <= count <= parts.len(),
        forall|i: int| 0 <= i < parts.len() ==> reading::is_part(#[trigger] parts[i]),
        forall|i: int| 0 <= i < parts.len() ==> slots[i] == text::ascii(#[trigger] parts[i]),
    ensures
        rendering::width_sum(slots, 0, count) + count <= reading::spelled_length(parts, count),
    decreases count,
{
    if count > 0 {
        lemma_name_width(slots, parts, count - 1);
        rendering::lemma_width_sum_upper(slots, 0, count);
        lemma_part_width(parts[count - 1]);
        assert(slots[count - 1] == text::ascii(parts[count - 1]));
    } else {
        assert(rendering::width_sum(slots, 0, 0) == 0);
    }
}

/// The signature of a free function is read wherever there is room.
#[verifier::rlimit(80)]
proof fn lemma_signature_succeeds(
    env: Env,
    st: State,
    parts: Seq<Seq<u8>>,
    result: u8,
    list: Seq<u8>,
)
    requires
        grants_all(env.grants),
        env.flags == 0,
        env.input.len() <= MAX_INPUT_BYTES,
        st.stack.well_formed(),
        st.stack.num == parts.len(),
        0 < parts.len(),
        forall|i: int| 0 <= i < parts.len() ==> reading::is_part(#[trigger] parts[i]),
        forall|i: int| 0 <= i < parts.len() ==> st.stack.slots[i] == text::ascii(#[trigger] parts[i]),
        st.pos() + 3 < env.input.len(),
        env.input[st.pos() as int] == 'Y' as u8,
        env.input[st.pos() + 1] == 'A' as u8,
        env.input[st.pos() + 2] == result,
        reading::is_argument_code(result) || result == 'X' as u8,
        reading::holds_parameters(env.input, st.pos() + 3, list),
        list.len() <= MAX_ARGUMENTS,
        reading::spelled_length(parts, parts.len() as int) <= MAX_INPUT_BYTES,
        affords(
            st.tape.ledger,
            4 * reading::spelled_length(parts, parts.len() as int) + 58 * list.len() + 100,
        ),
    ensures
        grammar::method_signature(env, grammar::rules(env, 0), st, false, false).out is Ok,
{
    reveal(grammar::method_signature);
    reveal(grammar::method_parts);
    reveal(grammar::return_type);
    reveal(grammar::method_arguments);
    assert(forall|mask: u16| #[trigger] (0u16 & mask) == 0u16) by (bit_vector);
    let rules = grammar::rules(env, 0);
    let pos = st.pos();
    let count = parts.len() as int;
    let spelled = reading::spelled_length(parts, count);
    reading::lemma_spelled_length(parts, 0, count);
    assert(env.at(pos, 0) == Some('Y' as u8));
    let read = st.lift(grammar::method_code(env, st.tape));
    lemma_name_width(st.stack.slots, parts, count);
    let wide = rendering::width_sum(st.stack.slots, 0, count) + 2 * (count - 1);
    assert(wide <= 2 * spelled) by {
        rendering::lemma_width_sum_bound(st.stack.slots, 0, count);
    }
    rendering::lemma_qualified_name_is_rendered(env, read.st.tape.ledger, read.st.stack, 0);
    rendering::lemma_qualified_name_is_complete(
        env,
        read.st.tape.ledger,
        read.st.stack,
        read.st,
        0,
    );
    let headed = grammar::method_head(env, st);
    assert(headed.out is Ok);
    let class = headed.out->Ok_0.name;
    assert(text::byte_width(class) == wide);
    lemma_rendering_costs(env, read.st);
    assert(headed.st.tape.ledger.used == st.tape.ledger.used + wide);
    let st1 = headed.st;
    assert(env.at(st1.pos(), 0) == Some('A' as u8));
    let st2 = st1.skip(1);
    assert(env.at(st2.pos(), 0) == Some(result));
    lemma_type_succeeds(env, st2, grammar::no_types(), false, result);
    reading::lemma_reads_type(env, st2, grammar::no_types(), false, result);
    let returned = grammar::return_type(env, rules, st2, grammar::no_types(), true);
    assert(returned.out is Ok);
    if list.len() == 0 {
        lemma_no_arguments_succeed(env, returned.st, returned.types);
        reading::lemma_reads_no_arguments(env, returned.st, returned.types);
    } else {
        lemma_arguments_succeed(env, returned.st, returned.types, Seq::empty(), list);
        reading::lemma_reads_arguments(env, returned.st, returned.types, Seq::empty(), list);
        assert(Seq::empty() + reading::names_of_types(list) =~= reading::names_of_types(list));
    }
    let parsed = grammar::method_parts(env, rules, st, false, false);
    assert(parsed.out is Ok);
    assert(parsed.st.tape.ledger.used <= st.tape.ledger.used + wide + 14 + 43 * list.len() + 20);
    let whole = parsed.out->Ok_0;
    let prefix = grammar::method_prefix(env, whole);
    let selector = grammar::method_selector(env, whole);
    reveal_strlit("");
    reveal_strlit(" ");
    reveal_strlit("__cdecl");
    reveal_strlit(" __cdecl ");
    reading::lemma_result_is_named(result);
    let name = reading::name_of_type(result);
    assert(prefix =~= name + " __cdecl "@);
    let names = reading::names_of_types(list);
    let shown = whole.arguments;
    assert(selector =~= class + shown);
    assert forall|i: int| 0 <= i < names.len() implies text::byte_width(#[trigger] names[i])
        <= 14 by {
        if list.len() > 0 {
            assert(reading::is_argument_code(list[i]));
            lemma_type_width(list[i]);
        }
    }
    if list.len() == 0 {
        assert(names =~= Seq::empty());
    }
    lemma_parameters_width(names);
    assert(is_ascii_chars(" __cdecl "@));
    is_ascii_chars_encode_utf8(" __cdecl "@);
    lemma_type_width(result);
    text::lemma_byte_width_concat(name, " __cdecl "@);
    text::lemma_byte_width_concat(class, shown);
    text::lemma_byte_width_concat(prefix, selector);
    lemma_produces(parsed.st.tape.ledger, env.grants, prefix + selector);
    text::lemma_boundary_between(prefix, selector);
}

/// Rendering a name costs its width.
proof fn lemma_rendering_costs(env: Env, st: State)
    requires
        grammar::render_class(env, st, 0).out is Ok,
    ensures
        grammar::render_class(env, st, 0).st.tape.ledger.used == st.tape.ledger.used
            + text::byte_width(grammar::render_class(env, st, 0).out->Ok_0),
        grammar::render_class(env, st, 0).st.tape.ledger.limit == st.tape.ledger.limit,
{
    reveal(Ledger::produce);
}

/// The symbol of a free function is demangled, whatever the number of its scopes and of
/// its parameters up to the limits, wherever the input is not too long and the
/// allocator grants every request.
pub proof fn lemma_function_symbol_is_accepted(
    input: Seq<u8>,
    grants: Grants,
    parts: Seq<Seq<u8>>,
    result: u8,
    list: Seq<u8>,
)
    requires
        grants_all(grants),
        input.len() <= MAX_INPUT_BYTES,
        0 < parts.len() <= 1024,
        list.len() <= 1024,
        ({
            let behind = 1 + reading::spelled_length(parts, parts.len() as int) + 1;
            &&& input.len() > 0
            &&& input[0] == '?' as u8
            &&& parts[0][0] != '$' as u8
            &&& reading::spells(input, 1, parts)
            &&& behind + 3 < input.len()
            &&& input[behind] == 'Y' as u8
            &&& input[behind + 1] == 'A' as u8
            &&& input[behind + 2] == result
            &&& reading::is_argument_code(result) || result == 'X' as u8
            &&& reading::holds_parameters(input, behind + 3, list)
        }),
    ensures
        grammar::demangled(input, 0, grants) is Ok,
{
    reveal(grammar::symbol);
    reveal(grammar::symbol_inner);
    assert(forall|mask: u16| #[trigger] (0u16 & mask) == 0u16) by (bit_vector);
    let env = Env { input, flags: grammar::effective_flags(0), grants };
    let rules = grammar::rules(env, 0);
    let body = grammar::initial().skip(1);
    let named = grammar::components(env, rules, body, 0, 0);
    reading::lemma_spelled_length(parts, 0, parts.len() as int);
    reading::lemma_reads_symbol_name(env, parts);
    lemma_parts_succeed(env, rules, body, 0, 0, parts);
    reading::lemma_parts_on_stack(env, parts);
    assert(env.at(named.st.pos(), 0) == Some('Y' as u8));
    lemma_signature_succeeds(env, named.st, parts, result, list);
}

} // verus!
