//! What nested and repeated encodings are read as.

use vstd::prelude::*;

use crate::cursor;
use crate::error::ParseFailure;
use crate::limits::MAX_MSVC_NESTING_DEPTH;
use crate::msvc::codes;
use crate::msvc::grammar;
use crate::msvc::grammar::{Env, Rules, State, Tape, TypeView};
use crate::msvc::reading;
use crate::msvc::rendering;
use crate::msvc::state::{Ledger, Table};
use crate::text;
use crate::text::Text;

verus! {

// ---------------------------------------------------------------------------
// Back-references
// ---------------------------------------------------------------------------

/// A digit in place of a part of a name stands for the part that was learned under its
/// number, and teaches nothing.
pub proof fn lemma_digit_repeats_a_name(
    env: Env,
    st: State,
    digit: u8,
    width: usize,
    has_previous: bool,
)
    requires
        '0' as u8 <= digit <= '9' as u8,
        st.pos() < usize::MAX,
        st.names.start == 0,
        st.names.well_formed(),
        st.stack.well_formed(),
        grammar::referenced_component(env, st, digit, width, has_previous).out is Ok,
    ensures
        ({
            let after = grammar::referenced_component(env, st, digit, width, has_previous).st;
            let number = digit - '0' as u8;
            &&& number < st.names.max
            &&& after.stack.num == st.stack.num + 1
            &&& after.stack.slots[st.stack.num as int] == st.names.slots[number as int]
            &&& forall|i: int|
                0 <= i < st.stack.num ==> #[trigger] after.stack.slots[i] == st.stack.slots[i]
            &&& after.names == st.names
            &&& after.pos() == st.pos() + 1
        }),
{
    reveal(Ledger::produce);
}

/// A type that was learned is what the digit of its number stands for, both what stands
/// left of a name and what stands right of it.
pub proof fn lemma_digit_repeats_a_type(
    env: Env,
    ledger: Ledger,
    table: Table,
    datatype: TypeView,
    tape: Tape,
    offset: usize,
    number: nat,
)
    requires
        table.well_formed(),
        table.start == 0,
        table.num == 2 * number,
        number <= 9,
        grammar::learn_type(env, ledger, Some(table), true, datatype).0 is Ok,
        grammar::referenced_type(
            env,
            tape,
            offset,
            ('0' as u8 + number) as u8,
            grammar::learn_type(env, ledger, Some(table), true, datatype).2,
        ).out is Ok,
    ensures
        ({
            let again = grammar::referenced_type(
                env,
                tape,
                offset,
                ('0' as u8 + number) as u8,
                grammar::learn_type(env, ledger, Some(table), true, datatype).2,
            );
            &&& again.out->Ok_0.left == datatype.left
            &&& text::optional_text(again.out->Ok_0.right) == text::optional_text(datatype.right)
            &&& again.tape.pos == tape.pos
        }),
{
    reveal(Ledger::produce);
}

/// Types are learned in argument lists alone. What was learned before stays, and only
/// the next number is given.
pub proof fn lemma_types_are_learned_in_order(
    env: Env,
    ledger: Ledger,
    table: Table,
    datatype: TypeView,
    in_args: bool,
    i: int,
)
    requires
        table.well_formed(),
        grammar::learn_type(env, ledger, Some(table), in_args, datatype).0 is Ok,
    ensures
        ({
            let after = grammar::learn_type(env, ledger, Some(table), in_args, datatype).2->0;
            &&& !in_args ==> after == table
            &&& in_args ==> after.num == table.num + 2 && after.start == table.start
                && after.slots[table.num as int] == datatype.left && after.slots[table.num + 1]
                == text::optional_text(datatype.right)
            &&& 0 <= i < table.num ==> after.slots[i] == table.slots[i]
        }),
{
    reveal(Ledger::produce);
}

// ---------------------------------------------------------------------------
// Pointers
// ---------------------------------------------------------------------------

/// A type behind `depth` pointers: the first star stands behind a blank, and the others
/// behind one another.
pub open spec fn behind_pointers(name: Text, depth: nat) -> Text
    decreases depth,
{
    if depth == 0 {
        name
    } else if depth == 1 {
        name + seq![' ', '*']
    } else {
        behind_pointers(name, (depth - 1) as nat).push('*')
    }
}

/// From `pos` on the input holds `depth` pointers, and the code of a type.
pub open spec fn holds_pointers(input: Seq<u8>, pos: int, depth: nat, code: u8) -> bool {
    &&& 0 <= pos
    &&& pos + 2 * depth < input.len()
    &&& reading::is_argument_code(code) || code == 'X' as u8
    &&& forall|i: int|
        0 <= i < depth ==> #[trigger] input[pos + 2 * i] == 'P' as u8 && input[pos + 2 * i + 1]
            == 'A' as u8
    &&& input[pos + 2 * depth] == code
}

/// What stands in front of the type behind a plain pointer is a star.
proof fn lemma_reads_star(env: Env, st: State)
    requires
        st.pos() + 1 < env.input.len() <= usize::MAX,
        env.input[st.pos() as int] == 'A' as u8,
        env.input[st.pos() + 1] != 'Y' as u8,
        grammar::modified_prefix(env, st, 'P' as u8).out is Ok,
    ensures
        ({
            let read = grammar::modified_prefix(env, st, 'P' as u8);
            &&& read.out->Ok_0.rendered == seq![' ', '*']
            &&& read.out->Ok_0.qualifier is None
            &&& read.st.pos() == st.pos() + 1
            &&& read.st.stack == st.stack
            &&& read.st.names == st.names
            &&& read.st.name_pos == st.name_pos
        }),
{
    reveal(grammar::modified_prefix);
    reveal(Ledger::produce);
    reveal_strlit(" *");
    assert(env.at(st.pos(), 0) == Some('A' as u8));
    assert(cursor::byte_at(env.input, st.pos(), 0) == Some('A' as u8));
    assert(" *"@ + Seq::<char>::empty() =~= seq![' ', '*']);
    assert(cursor::byte_at(env.input, (st.pos() + 1) as usize, 0) == Some(
        env.input[st.pos() + 1],
    ));
}

/// The text behind one more pointer.
proof fn lemma_one_more_pointer(prefix: grammar::PrefixView, subtype: TypeView, name: Text, depth: nat)
    requires
        prefix.rendered == seq![' ', '*'],
        prefix.qualifier is None,
        subtype.left == behind_pointers(name, depth),
        name.len() > 0,
        name.last() != '*',
    ensures
        grammar::modified_text(prefix, subtype, false) == behind_pointers(name, depth + 1),
{
    reveal_strlit(" *");
    assert(" *"@ =~= seq![' ', '*']);
    assert(" *"@.is_prefix_of(prefix.rendered)) by {
        assert(prefix.rendered.subrange(0, 2) =~= " *"@);
    }
    if depth == 0 {
        assert(subtype.left.last() != '*');
    } else {
        assert(behind_pointers(name, depth).last() == '*');
        assert(prefix.rendered.drop_first() =~= seq!['*']);
        assert(subtype.left + seq!['*'] =~= subtype.left.push('*'));
    }
}

/// Names of types do not end in a star.
proof fn lemma_name_has_no_star(code: u8)
    requires
        reading::is_argument_code(code) || code == 'X' as u8,
    ensures
        reading::name_of_type(code).len() > 0,
        reading::name_of_type(code).last() != '*',
{
    reveal_strlit("void");
    reveal_strlit("signed char");
    reveal_strlit("char");
    reveal_strlit("unsigned char");
    reveal_strlit("short");
    reveal_strlit("unsigned short");
    reveal_strlit("int");
    reveal_strlit("unsigned int");
    reveal_strlit("long");
    reveal_strlit("unsigned long");
    reveal_strlit("float");
    reveal_strlit("double");
    reveal_strlit("long double");
}

/// A type with a one-letter code is read as its name at every depth.
proof fn lemma_reads_type_at(env: Env, d: usize, st: State, types: Option<Table>, code: u8)
    requires
        st.pos() < env.input.len() <= usize::MAX,
        env.input[st.pos() as int] == code,
        reading::is_argument_code(code) || code == 'X' as u8,
        grammar::datatype(grammar::rules(env, d), st, types, false).out is Ok,
    ensures
        ({
            let read = grammar::datatype(grammar::rules(env, d), st, types, false);
            &&& read.out->Ok_0.left == reading::name_of_type(code)
            &&& read.out->Ok_0.right is None
            &&& read.st.pos() == st.pos() + 1
            &&& read.st.stack == st.stack
            &&& read.types == types
        }),
{
    reveal_with_fuel(grammar::rules, 2);
    reveal(grammar::coded_type);
    reveal(Ledger::produce);
    assert(env.at(st.pos(), 0) == Some(code));
}

/// A pointer to a type is read as the type with a star, outside argument lists.
proof fn lemma_reads_pointer(env: Env, d: usize, st: State, types: Option<Table>)
    requires
        st.pos() + 2 < env.input.len() <= usize::MAX,
        env.input[st.pos() as int] == 'P' as u8,
        env.input[st.pos() + 1] == 'A' as u8,
        env.input[st.pos() + 2] != 'Y' as u8,
        d + 1 <= MAX_MSVC_NESTING_DEPTH,
        st.stack.well_formed(),
        grammar::datatype(grammar::rules(env, d), st, types, false).out is Ok,
    ensures
        ({
            let body = st.skip(1);
            let prefix = grammar::modified_prefix(env, body, 'P' as u8);
            let inner = grammar::datatype(
                grammar::rules(env, (d + 1) as usize),
                prefix.st,
                types,
                false,
            );
            let read = grammar::datatype(grammar::rules(env, d), st, types, false);
            &&& prefix.out is Ok
            &&& inner.out is Ok
            &&& read.out->Ok_0.left == grammar::modified_text(
                prefix.out->Ok_0,
                inner.out->Ok_0,
                false,
            )
            &&& read.out->Ok_0.right == inner.out->Ok_0.right
            &&& read.st.pos() == inner.st.pos()
            &&& inner.st.stack.well_formed() && inner.st.stack.max >= st.stack.num
                ==> read.st.stack == inner.st.stack.restored(st.stack.num)
            &&& read.types == inner.types
        }),
{
    reveal_with_fuel(grammar::rules, 2);
    reveal(grammar::coded_type);
    reveal(grammar::pointer_type);
    reveal(grammar::modified);
    reveal(grammar::modified_inner);
    reveal(Ledger::produce);
    assert(env.at(st.pos(), 0) == Some('P' as u8));
    assert(env.at(st.skip(1).pos(), 0) == Some('A' as u8));
}

/// Pointers to pointers are read through to the type, however many there are: the type
/// is rendered with one star for each.
pub proof fn lemma_every_pointer_is_rendered(
    env: Env,
    d: usize,
    st: State,
    types: Option<Table>,
    depth: nat,
    code: u8,
)
    requires
        env.input.len() <= usize::MAX,
        st.stack.well_formed(),
        holds_pointers(env.input, st.pos() as int, depth, code),
        grammar::datatype(grammar::rules(env, d), st, types, false).out is Ok,
    ensures
        ({
            let read = grammar::datatype(grammar::rules(env, d), st, types, false);
            &&& read.out->Ok_0.left == behind_pointers(reading::name_of_type(code), depth)
            &&& read.out->Ok_0.right is None
            &&& read.st.pos() == st.pos() + 2 * depth + 1
            &&& read.st.stack == st.stack
            &&& read.types == types
        }),
    decreases depth,
{
    let name = reading::name_of_type(code);
    lemma_name_has_no_star(code);
    if depth == 0 {
        lemma_reads_type_at(env, d, st, types, code);
    } else {
        let pos = st.pos() as int;
        assert(env.input[pos + 2 * 0] == 'P' as u8);
        assert(env.input[pos + 2 * 0 + 1] == 'A' as u8);
        let less = (depth - 1) as nat;
        assert(env.input[pos + 2] != 'Y' as u8) by {
            if depth > 1 {
                assert(env.input[pos + 2 * 1] == 'P' as u8);
            }
        }
        lemma_depth_is_left(env, d, st, types);
        lemma_reads_pointer(env, d, st, types);
        let body = st.skip(1);
        let prefix = grammar::modified_prefix(env, body, 'P' as u8);
        lemma_reads_star(env, body);
        assert forall|i: int| 0 <= i < less implies #[trigger] env.input[prefix.st.pos() + 2 * i]
            == 'P' as u8 && env.input[prefix.st.pos() + 2 * i + 1] == 'A' as u8 by {
            assert(env.input[pos + 2 * (i + 1)] == 'P' as u8);
        }
        assert(holds_pointers(env.input, prefix.st.pos() as int, less, code));
        lemma_every_pointer_is_rendered(
            env,
            (d + 1) as usize,
            prefix.st,
            types,
            less,
            code,
        );
        let inner = grammar::datatype(
            grammar::rules(env, (d + 1) as usize),
            prefix.st,
            types,
            false,
        );
        lemma_one_more_pointer(prefix.out->Ok_0, inner.out->Ok_0, name, less);
        assert(st.stack.restored(st.stack.num) == st.stack);
    }
}

/// What was read was not nested too deep.
proof fn lemma_depth_is_left(env: Env, d: usize, st: State, types: Option<Table>)
    requires
        grammar::datatype(grammar::rules(env, d), st, types, false).out is Ok,
    ensures
        d + 1 <= MAX_MSVC_NESTING_DEPTH,
{
    reveal_with_fuel(grammar::rules, 2);
}

// ---------------------------------------------------------------------------
// Templates
// ---------------------------------------------------------------------------

/// Template arguments with one-letter codes are read one after the other, up to the `@`
/// behind them.
proof fn lemma_reads_template_arguments(
    env: Env,
    st: State,
    types: Option<Table>,
    before: Seq<Text>,
    list: Seq<u8>,
)
    requires
        st.pos() + list.len() < env.input.len() <= usize::MAX,
        forall|i: int| 0 <= i < list.len() ==> reading::is_argument_code(#[trigger] list[i]),
        forall|i: int| 0 <= i < list.len() ==> #[trigger] list[i] == env.input[st.pos() + i],
        env.input[st.pos() + list.len()] == '@' as u8,
        grammar::argument_list(
            env,
            grammar::rules(env, 0),
            st,
            types,
            before,
            false,
            '<' as u8,
            '>' as u8,
        ).out is Ok,
    ensures
        ({
            let read = grammar::argument_list(
                env,
                grammar::rules(env, 0),
                st,
                types,
                before,
                false,
                '<' as u8,
                '>' as u8,
            );
            &&& read.out->Ok_0 == grammar::arguments_text(
                before + reading::names_of_types(list),
                '<' as u8,
                '>' as u8,
            )
            &&& read.st.pos() == st.pos() + list.len() + 1
            &&& read.st.stack == st.stack
            &&& read.st.names == st.names
        }),
    decreases list.len(),
{
    reveal_with_fuel(grammar::argument_list, 2);
    reveal(Ledger::produce);
    let rules = grammar::rules(env, 0);
    if list.len() == 0 {
        assert(env.at(st.pos(), 0) == Some('@' as u8));
        assert(before + reading::names_of_types(list) =~= before);
    } else {
        let code = list[0];
        assert(code == env.input[st.pos() + 0]);
        assert(env.at(st.pos(), 0) == Some(code));
        reading::lemma_name_of_type(code);
        let st1 = st.paid(st.tape.ledger.after_request(1));
        reading::lemma_reads_type(env, st1, types, true, code);
        let parsed = grammar::datatype(rules, st1, types, true);
        let argument = parsed.out->Ok_0;
        let name = reading::name_of_type(code);
        assert(argument.left + argument.right_text() =~= name);
        let rendered = parsed.st.emit(env, argument.left + argument.right_text());
        let rest = list.drop_first();
        assert forall|i: int| 0 <= i < rest.len() implies reading::is_argument_code(
            #[trigger] rest[i],
        ) && rest[i] == env.input[rendered.st.pos() + i] by {
            assert(rest[i] == list[i + 1]);
            assert(list[i + 1] == env.input[st.pos() + (i + 1)]);
        }
        lemma_reads_template_arguments(
            env,
            rendered.st,
            parsed.types,
            before.push(name),
            rest,
        );
        assert(before.push(name) + reading::names_of_types(rest) =~= before
            + reading::names_of_types(list)) by {
            assert forall|i: int| 0 <= i < rest.len() implies reading::names_of_types(rest)[i]
                == reading::names_of_types(list)[i + 1] by {
                assert(rest[i] == list[i + 1]);
            }
        }
    }
}

/// A template instance is read as its name and, in angle brackets, all of its arguments
/// in order, wherever the list of them can be rendered. The names that were learned
/// before and the stack stay as they were.
pub proof fn lemma_template_is_rendered(
    env: Env,
    st: State,
    name: Seq<u8>,
    list: Seq<u8>,
)
    requires
        env.input.len() <= usize::MAX,
        st.names.well_formed(),
        st.names.start <= st.names.max,
        st.stack.well_formed(),
        reading::is_part(name),
        st.pos() + name.len() + 1 + list.len() < env.input.len(),
        env.input.subrange(st.pos() as int, st.pos() + name.len()) == name,
        env.input[st.pos() + name.len()] == '@' as u8,
        forall|i: int| 0 <= i < list.len() ==> reading::is_argument_code(#[trigger] list[i]),
        forall|i: int|
            0 <= i < list.len() ==> #[trigger] list[i] == env.input[st.pos() + name.len() + 1 + i],
        env.input[st.pos() + name.len() + 1 + list.len()] == '@' as u8,
        grammar::template_name(env, grammar::rules(env, 0), st).out is Ok,
    ensures
        ({
            let read = grammar::template_name(env, grammar::rules(env, 0), st);
            let inside = State { names: st.names.started(st.names.num), ..st };
            let body = grammar::template_body(env, grammar::rules(env, 0), inside);
            &&& body.out is Ok
            &&& body.out->Ok_0.0 == text::ascii(name)
            &&& body.out->Ok_0.1 is Some ==> read.out->Ok_0 == text::ascii(name)
                + grammar::arguments_text(reading::names_of_types(list), '<' as u8, '>' as u8)
                && read.st.pos() == st.pos() + name.len() + list.len() + 2
            &&& body.out->Ok_0.1 is None ==> read.out->Ok_0 == text::ascii(name)
            &&& read.st.names.num == st.names.num
            &&& read.st.names.start == st.names.start
            &&& read.st.stack.num == st.stack.num
        }),
{
    reveal(grammar::template_name);
    reveal(grammar::template_body);
    reveal(Ledger::produce);
    let rules = grammar::rules(env, 0);
    let inside = State { names: st.names.started(st.names.num), ..st };
    let end = st.pos() + name.len();
    let literal = grammar::literal(env, inside.tape, inside.names);
    let body = grammar::template_body(env, rules, inside);
    assert(body.out is Ok);
    assert(literal.out is Ok);
    assert forall|k: int| st.pos() <= k < end implies rendering::can_name(
        #[trigger] env.input[k],
    ) by {
        assert(name[k - st.pos()] == env.input[k]);
        assert(rendering::can_name(name[k - st.pos()]));
    }
    rendering::lemma_name_is_read_whole(env, inside.tape, inside.names, end as int);
    assert(literal.out->Ok_0 =~= text::ascii(name)) by {
        assert forall|k: int| 0 <= k < name.len() implies literal.out->Ok_0[k]
            == name[k] as char by {
            assert(name[k] == env.input[st.pos() + k]);
        }
    }
    let read = inside.lift_named(literal);
    let listed = grammar::argument_list(
        env,
        rules,
        read.st,
        grammar::no_types(),
        Seq::empty(),
        false,
        '<' as u8,
        '>' as u8,
    );
    if listed.out is Ok {
        assert forall|i: int| 0 <= i < list.len() implies #[trigger] list[i]
            == env.input[read.st.pos() + i] by {
            assert(list[i] == env.input[st.pos() + name.len() + 1 + i]);
        }
        lemma_reads_template_arguments(
            env,
            read.st,
            grammar::no_types(),
            Seq::empty(),
            list,
        );
        assert(Seq::empty() + reading::names_of_types(list) =~= reading::names_of_types(list));
    }
}

// ---------------------------------------------------------------------------
// Arrays
// ---------------------------------------------------------------------------

/// The number of dimensions is what the letters write that announce it.
pub proof fn lemma_announced_dimensions(env: Env, tape: Tape, letters: Seq<u8>)
    requires
        env.input.len() <= usize::MAX,
        letters.len() > 0,
        forall|i: int|
            0 <= i < letters.len() ==> 'A' as u8 <= #[trigger] letters[i] <= 'P' as u8,
        rendering::written(letters) <= grammar::MAX_ENCODED_NUMBER,
        tape.pos + letters.len() < env.input.len(),
        forall|i: int| 0 <= i < letters.len() ==> #[trigger] letters[i] == env.input[tape.pos + i],
        env.input[tape.pos + letters.len()] == '@' as u8,
        grammar::dimension_number(env, tape).out is Ok,
    ensures
        grammar::dimension_number(env, tape).out->Ok_0 == rendering::written(letters),
        grammar::dimension_number(env, tape).tape.pos == tape.pos + letters.len() + 1,
{
    reveal(Ledger::produce);
    assert forall|i: int| 0 <= i < letters.len() implies #[trigger] letters[i]
        == env.input[tape.pos + 0 + i] by {}
    rendering::lemma_encoded_number_is_rendered(env, tape, letters, false);
    rendering::lemma_count_is_read_back(rendering::written(letters) as nat, tape.pos);
}

/// An array behind a pointer is rendered with the pointer in round brackets and all of
/// its dimensions behind them, in order.
pub proof fn lemma_pointed_array_is_rendered(
    env: Env,
    tape: Tape,
    rendered: Text,
    digits: Seq<int>,
)
    requires
        tape.pos < env.input.len() <= usize::MAX,
        grammar::dimension_number(env, tape.skip(1)).out == Ok::<usize, ParseFailure>(
            digits.len() as usize,
        ),
        digits.len() <= 128,
        ({
            let behind = grammar::dimension_number(env, tape.skip(1)).tape.pos;
            &&& behind + digits.len() <= env.input.len()
            &&& forall|i: int|
                0 <= i < digits.len() ==> 0 <= #[trigger] digits[i] <= 9 && env.input[behind + i]
                    == '0' as u8 + digits[i]
        }),
        grammar::pointed_array(env, tape, rendered, None).out is Ok,
    ensures
        grammar::pointed_array(env, tape, rendered, None).out->Ok_0 == seq![' ', '('] + (
        if rendered.len() > 0 && rendered[0] == ' ' {
            rendered.skip(1)
        } else {
            rendered
        }) + seq![')'] + rendering::bracketed(
            Seq::new(digits.len(), |i: int| grammar::decimal((digits[i] + 1) as nat)),
        ),
{
    reveal(Ledger::produce);
    reveal_strlit(" (");
    reveal_strlit(")");
    assert(" ("@ =~= seq![' ', '(']);
    assert(")"@ =~= seq![')']);
    let counted = grammar::dimension_number(env, tape.skip(1));
    let bare = grammar::without_leading_blank(rendered);
    assert(rendered.len() > 0 ==> rendered.drop_first() =~= rendered.skip(1));
    let suffix = " ("@ + bare + ")"@;
    let inner = counted.tape.emit(env, suffix);
    rendering::lemma_every_dimension_is_rendered(
        env,
        inner.tape,
        digits.len(),
        suffix,
        digits,
    );
}

// ---------------------------------------------------------------------------
// Named and sized types
// ---------------------------------------------------------------------------

/// A type with a name of its own is rendered as what it is and its whole qualified name,
/// and is learned as that in an argument list.
pub proof fn lemma_named_type_is_rendered(
    env: Env,
    rules: Rules,
    st: State,
    prefix: &'static str,
    types: Option<Table>,
    in_args: bool,
    parts: Seq<Seq<u8>>,
)
    requires
        env.flags == 0,
        env.input.len() <= usize::MAX,
        st.names.well_formed(),
        st.stack.well_formed(),
        reading::spells(env.input, st.pos() as int, parts),
        grammar::named_type(env, rules, st, prefix, types, in_args).out is Ok,
    ensures
        ({
            let read = grammar::named_type(env, rules, st, prefix, types, in_args);
            let name = grammar::qualified(reading::texts_of(parts), 0, parts.len() as int);
            &&& read.out->Ok_0.left == prefix@ + name
            &&& read.out->Ok_0.right is None
            &&& rendering::is_qualified_name(
                name,
                reading::texts_of(parts),
                0,
                parts.len() as int,
            )
            &&& read.st.pos() == st.pos() + reading::spelled_length(parts, parts.len() as int) + 1
            &&& in_args && types is Some && (types->0).well_formed() ==> (
            read.types->0).slots[(types->0).num as int] == prefix@ + name
        }),
{
    reveal(grammar::named_type);
    reveal(grammar::class_name);
    reveal(Ledger::produce);
    assert(forall|mask: u16| #[trigger] (0u16 & mask) == 0u16) by (bit_vector);
    let checkpoint = st.stack.num;
    let collected = grammar::components(env, rules, st, checkpoint, 0);
    reading::lemma_parts_are_read_in_order(env, rules, st, checkpoint, 0, parts);
    let texts = reading::texts_of(parts);
    reading::lemma_qualified_shifted(
        collected.st.stack.slots,
        checkpoint as int,
        texts,
        parts.len() as int,
    );
    rendering::lemma_is_qualified_name(texts, 0, parts.len() as int);
}

/// A type whose code follows an underscore is read as its name, and is learned in an
/// argument list.
pub proof fn lemma_sized_type_is_read(
    env: Env,
    st: State,
    types: Option<Table>,
    in_args: bool,
    code: u8,
)
    requires
        st.pos() + 1 < env.input.len() <= usize::MAX,
        env.input[st.pos() as int] == '_' as u8,
        env.input[st.pos() + 1] == code,
        'D' as u8 <= code <= 'N' as u8 || code == 'W' as u8,
        grammar::datatype(grammar::rules(env, 0), st, types, in_args).out is Ok,
    ensures
        ({
            let read = grammar::datatype(grammar::rules(env, 0), st, types, in_args);
            &&& read.out->Ok_0.left == codes::extended_primitive(code as char)->0@
            &&& read.out->Ok_0.right is None
            &&& read.st.pos() == st.pos() + 2
            &&& read.st.stack == st.stack
            &&& read.st.names == st.names
            &&& !in_args ==> read.types == types
            &&& in_args && types is Some && (types->0).well_formed() ==> (
            read.types->0).num == (types->0).num + 2 && (
            read.types->0).slots[(types->0).num as int] == codes::extended_primitive(
                code as char,
            )->0@
        }),
{
    reveal_with_fuel(grammar::rules, 2);
    reveal(grammar::coded_type);
    reveal(Ledger::produce);
    assert(env.at(st.pos(), 0) == Some('_' as u8));
    assert(env.at(st.skip(1).pos(), 0) == Some(code));
}

// ---------------------------------------------------------------------------
// Open lists
// ---------------------------------------------------------------------------

/// A list of parameters that ends in an ellipsis holds all parameters in front of it,
/// and the ellipsis last.
pub proof fn lemma_open_list_is_rendered(
    env: Env,
    st: State,
    types: Option<Table>,
    before: Seq<Text>,
    list: Seq<u8>,
)
    requires
        st.pos() + list.len() + 1 < env.input.len() <= usize::MAX,
        forall|i: int| 0 <= i < list.len() ==> reading::is_argument_code(#[trigger] list[i]),
        forall|i: int| 0 <= i < list.len() ==> #[trigger] list[i] == env.input[st.pos() + i],
        env.input[st.pos() + list.len()] == 'Z' as u8,
        env.input[st.pos() + list.len() + 1] == 'Z' as u8,
        grammar::argument_list(
            env,
            grammar::rules(env, 0),
            st,
            types,
            before,
            true,
            '(' as u8,
            ')' as u8,
        ).out is Ok,
    ensures
        ({
            let read = grammar::argument_list(
                env,
                grammar::rules(env, 0),
                st,
                types,
                before,
                true,
                '(' as u8,
                ')' as u8,
            );
            &&& read.out->Ok_0 == grammar::arguments_text(
                (before + reading::names_of_types(list)).push(seq!['.', '.', '.']),
                '(' as u8,
                ')' as u8,
            )
            &&& read.st.pos() == st.pos() + list.len() + 2
        }),
    decreases list.len(),
{
    reveal_with_fuel(grammar::argument_list, 2);
    reveal(Ledger::produce);
    let rules = grammar::rules(env, 0);
    if list.len() == 0 {
        assert(env.at(st.pos(), 0) == Some('Z' as u8));
        reveal_strlit("...");
        reveal_strlit("void");
        assert("..."@ =~= seq!['.', '.', '.']);
        assert("void"@[0] == 'v');
        let st1 = st.paid(st.tape.ledger.after_request(1));
        lemma_reads_ellipsis(env, st1, types);
        let parsed = grammar::datatype(rules, st1, types, true);
        let argument = parsed.out->Ok_0;
        assert(argument.left + argument.right_text() =~= "..."@);
        assert(env.at(parsed.st.pos(), 0) == Some('Z' as u8));
        assert(before + reading::names_of_types(list) =~= before);
    } else {
        let code = list[0];
        assert(code == env.input[st.pos() + 0]);
        assert(env.at(st.pos(), 0) == Some(code));
        reading::lemma_name_of_type(code);
        let st1 = st.paid(st.tape.ledger.after_request(1));
        reading::lemma_reads_type(env, st1, types, true, code);
        let parsed = grammar::datatype(rules, st1, types, true);
        let argument = parsed.out->Ok_0;
        let name = reading::name_of_type(code);
        assert(argument.left + argument.right_text() =~= name);
        let rendered = parsed.st.emit(env, argument.left + argument.right_text());
        let rest = list.drop_first();
        assert forall|i: int| 0 <= i < rest.len() implies reading::is_argument_code(
            #[trigger] rest[i],
        ) && rest[i] == env.input[rendered.st.pos() + i] by {
            assert(rest[i] == list[i + 1]);
            assert(list[i + 1] == env.input[st.pos() + (i + 1)]);
        }
        lemma_open_list_is_rendered(
            env,
            rendered.st,
            parsed.types,
            before.push(name),
            rest,
        );
        assert(before.push(name) + reading::names_of_types(rest) =~= before
            + reading::names_of_types(list)) by {
            assert forall|i: int| 0 <= i < rest.len() implies reading::names_of_types(rest)[i]
                == reading::names_of_types(list)[i + 1] by {
                assert(rest[i] == list[i + 1]);
            }
        }
    }
}

/// An ellipsis is read as three dots.
proof fn lemma_reads_ellipsis(env: Env, st: State, types: Option<Table>)
    requires
        st.pos() < env.input.len() <= usize::MAX,
        env.input[st.pos() as int] == 'Z' as u8,
        grammar::datatype(grammar::rules(env, 0), st, types, true).out is Ok,
    ensures
        ({
            let read = grammar::datatype(grammar::rules(env, 0), st, types, true);
            &&& read.out->Ok_0.left == "..."@
            &&& read.out->Ok_0.right is None
            &&& read.st.pos() == st.pos() + 1
        }),
{
    reveal_with_fuel(grammar::rules, 2);
    reveal(grammar::coded_type);
    reveal(Ledger::produce);
    assert(env.at(st.pos(), 0) == Some('Z' as u8));
}

} // verus!
