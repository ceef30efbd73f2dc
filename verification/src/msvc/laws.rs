//! What holds of the tables, the budget and the parser as a whole.

use vstd::prelude::*;
use vstd::utf8::encode_utf8;

use crate::error::ParseFailure;
use crate::function_name;
use crate::function_name::{FunctionNameError, NameView};
use crate::limits::{MAX_INPUT_BYTES, MAX_MSVC_NESTING_DEPTH, MAX_OUTPUT_BYTES};
use crate::msvc::flags::UNDNAME_NO_ARGUMENTS;
use crate::msvc::grammar;
use crate::msvc::grammar::{Env, State};
use crate::msvc::state;
use crate::msvc::state::{Grants, Ledger, Table};
use crate::text;
use crate::text::Text;

verus! {

// ---------------------------------------------------------------------------
// The budget
// ---------------------------------------------------------------------------

/// A text that is produced costs its length in bytes; a text that is not produced
/// costs nothing. The use never exceeds the limit.
pub proof fn lemma_produce_charges_exactly(ledger: Ledger, grants: Grants, value: Text)
    ensures
        ({
            let charged = ledger.produce(grants, value);
            &&& state::spent(ledger, charged.ledger)
            &&& match charged.out {
                Ok(made) => made == value && charged.ledger.used == ledger.used
                    + text::byte_width(value) && charged.ledger.used <= ledger.limit,
                Err(_) => charged.ledger.used == ledger.used,
            }
        }),
{
    reveal(Ledger::produce);
}

/// A text that fits the budget is produced as soon as the allocator grants the room.
pub proof fn lemma_produce_succeeds(ledger: Ledger, grants: Grants, value: Text)
    requires
        text::byte_width(value) <= MAX_OUTPUT_BYTES,
        ledger.used + text::byte_width(value) <= ledger.limit,
        grants(ledger.asked),
    ensures
        ledger.produce(grants, value).out == Ok::<Text, ParseFailure>(value),
{
    reveal(Ledger::produce);
}

// ---------------------------------------------------------------------------
// Tables
// ---------------------------------------------------------------------------

/// A store that is refused leaves the table as it was.
pub proof fn lemma_refused_store_changes_nothing(
    table: Table,
    grants: Grants,
    ledger: Ledger,
    value: Text,
    other: Text,
)
    ensures
        table.push(grants, ledger, value).out is Err ==> table.push(grants, ledger, value).table
            == table,
        table.push_pair(grants, ledger, value, other).out is Err ==> table.push_pair(
            grants,
            ledger,
            value,
            other,
        ).table == table,
        table.replace_last(grants, ledger, value).out is Err ==> table.replace_last(
            grants,
            ledger,
            value,
        ).table == table,
{
}

/// A pushed entry is the last active one. The entries before it stay, the start
/// stays, and the high-water mark does not fall.
pub proof fn lemma_pushed_entry_is_active(
    table: Table,
    grants: Grants,
    ledger: Ledger,
    value: Text,
    i: usize,
)
    requires
        table.push(grants, ledger, value).out is Ok,
    ensures
        ({
            let after = table.push(grants, ledger, value).table;
            &&& after.num == table.num + 1
            &&& after.active(table.num) == Ok::<Text, ParseFailure>(value)
            &&& i < table.num ==> after.active(i) == table.active(i)
            &&& after.start == table.start
            &&& state::grown(table, after)
            &&& after.num <= table.limit
        }),
{
}

/// A pushed pair gives the last two active entries.
pub proof fn lemma_pushed_pair_is_active(
    table: Table,
    grants: Grants,
    ledger: Ledger,
    left: Text,
    right: Text,
    i: usize,
)
    requires
        table.push_pair(grants, ledger, left, right).out is Ok,
    ensures
        ({
            let after = table.push_pair(grants, ledger, left, right).table;
            &&& after.num == table.num + 2
            &&& after.active(table.num) == Ok::<Text, ParseFailure>(left)
            &&& after.active((table.num + 1) as usize) == Ok::<Text, ParseFailure>(right)
            &&& i < table.num ==> after.active(i) == table.active(i)
            &&& after.start == table.start
            &&& state::grown(table, after)
            &&& after.num <= table.limit
        }),
{
}

/// Writing over the last entry changes that entry alone.
pub proof fn lemma_replaced_entry_is_active(
    table: Table,
    grants: Grants,
    ledger: Ledger,
    value: Text,
    i: usize,
)
    requires
        table.replace_last(grants, ledger, value).out is Ok,
    ensures
        ({
            let after = table.replace_last(grants, ledger, value).table;
            &&& after.num == table.num
            &&& after.max == table.max
            &&& after.start == table.start
            &&& after.active((table.num - 1) as usize) == Ok::<Text, ParseFailure>(value)
            &&& i < table.num - 1 ==> after.active(i) == table.active(i)
        }),
{
}

/// Cutting the active entries back forgets none of them: what a back-reference
/// denotes stays, and growing to the old count gives the old table.
pub proof fn lemma_cut_entries_are_kept(table: Table, requested: usize, index: usize)
    requires
        table.well_formed(),
        requested <= table.max,
    ensures
        table.restored(requested).num == requested,
        table.restored(requested).reference(index) == table.reference(index),
        table.restored(requested).restored(table.num) == table,
        table.restored(requested).well_formed(),
{
}

/// An impossible cut, or an impossible start, changes nothing.
pub proof fn lemma_impossible_moves_change_nothing(table: Table, requested: usize)
    requires
        requested > table.max,
    ensures
        table.restore_error(requested) is Some,
        table.restored(requested) == table,
        table.start_error(requested) is Some,
        table.started(requested) == table,
{
}

/// The start moves the window of the back-references: they count from it, and reach
/// every slot below the high-water mark, active or not.
pub proof fn lemma_start_moves_window(table: Table, start: usize, index: usize)
    requires
        table.well_formed(),
        start <= table.max,
        start + index < table.max,
    ensures
        table.started(start).reference(index) == Ok::<Text, ParseFailure>(
            table.slots[start + index],
        ),
        table.started(start).reference(index) == table.started(0).reference(
            (start + index) as usize,
        ),
        start + index < table.num ==> table.started(start).reference(index) == table.active(
            (start + index) as usize,
        ),
        table.started(start).num == table.num,
        table.started(start).max == table.max,
{
}

// ---------------------------------------------------------------------------
// Nesting
// ---------------------------------------------------------------------------

/// Nothing nests deeper than the limit: there every nested type and symbol fails before
/// it reads or changes anything. For a symbol this takes a table of names whose
/// counters fit its slots; another one fails too.
pub proof fn lemma_nesting_is_bounded(
    env: Env,
    depth: usize,
    st: State,
    types: Option<Table>,
    in_args: bool,
)
    requires
        MAX_MSVC_NESTING_DEPTH <= depth,
    ensures
        ({
            let error = ParseFailure::NestingLimitExceeded {
                attempted: if depth == usize::MAX {
                    usize::MAX
                } else {
                    (depth + 1) as usize
                },
                limit: MAX_MSVC_NESTING_DEPTH,
            };
            let rules = grammar::rules(env, depth);
            &&& grammar::datatype(rules, st, types, in_args).out == Err::<
                grammar::TypeView,
                ParseFailure,
            >(error)
            &&& grammar::datatype(rules, st, types, in_args).st == st
            &&& grammar::datatype(rules, st, types, in_args).types == types
            &&& grammar::nested_symbol(rules, st).out is Err
            &&& st.names.well_formed() && st.names.start <= st.names.max ==> {
                &&& grammar::nested_symbol(rules, st).out == Err::<NameView, ParseFailure>(error)
                &&& grammar::nested_symbol(rules, st).st == st
            }
        }),
{
    reveal(grammar::rules);
}

// ---------------------------------------------------------------------------
// Symbols
// ---------------------------------------------------------------------------

/// A symbol that starts with anything but a question mark is refused, at its first
/// byte.
pub proof fn lemma_symbols_start_with_question_mark(input: Seq<u8>, flags: u16, grants: Grants)
    requires
        input.len() <= MAX_INPUT_BYTES,
        grammar::effective_flags(flags) & UNDNAME_NO_ARGUMENTS == 0,
        input.len() == 0 || input[0] != '?' as u8,
    ensures
        grammar::demangled(input, flags, grants) == Err::<NameView, ParseFailure>(
            ParseFailure::InvalidMsvcPrefix {
                offset: 0,
                found: if input.len() == 0 {
                    None
                } else {
                    Some(input[0])
                },
            },
        ),
{
    reveal(grammar::symbol);
    reveal(grammar::symbol_inner);
}

/// A name that is rendered behind a prefix is the selector of the whole: it starts
/// at a character boundary, and its bytes are the tail of the whole.
pub proof fn lemma_selector_is_rendered_name(prefix: Text, selector: Text)
    requires
        text::byte_width(prefix + selector) <= usize::MAX,
    ensures
        ({
            let start = text::byte_width(prefix) as usize;
            &&& function_name::name_of(prefix + selector, start) == Ok::<
                NameView,
                FunctionNameError,
            >(NameView { full: prefix + selector, selector_start: start })
            &&& encode_utf8(prefix + selector).skip(start as int) == encode_utf8(selector)
        }),
{
    text::lemma_boundary_between(prefix, selector);
    text::lemma_encode_concat(prefix, selector);
    assert(encode_utf8(prefix + selector).skip(text::byte_width(prefix) as int) =~= encode_utf8(
        selector,
    ));
}

/// Leaving out the arguments is refused before anything is read.
pub proof fn lemma_no_arguments_is_refused(input: Seq<u8>, flags: u16, grants: Grants)
    requires
        input.len() <= MAX_INPUT_BYTES,
        flags & UNDNAME_NO_ARGUMENTS != 0,
    ensures
        grammar::demangled(input, flags, grants) == Err::<NameView, ParseFailure>(
            ParseFailure::UnsupportedNoArguments { offset: 0 },
        ),
{
    reveal(grammar::symbol);
    lemma_effective_flags(flags);
}

/// Asking for a name alone only adds flags, and adding them twice is adding them
/// once.
pub proof fn lemma_effective_flags(flags: u16)
    ensures
        grammar::effective_flags(flags) & flags == flags,
        grammar::effective_flags(grammar::effective_flags(flags)) == grammar::effective_flags(
            flags,
        ),
        flags & UNDNAME_NO_ARGUMENTS != 0 ==> grammar::effective_flags(flags) & UNDNAME_NO_ARGUMENTS
            != 0,
{
    assert(grammar::effective_flags(flags) & flags == flags) by (bit_vector);
    assert(grammar::effective_flags(grammar::effective_flags(flags)) == grammar::effective_flags(
        flags,
    )) by (bit_vector);
    assert(flags & UNDNAME_NO_ARGUMENTS != 0 ==> grammar::effective_flags(flags)
        & UNDNAME_NO_ARGUMENTS != 0) by (bit_vector);
}

} // verus!
