//! Whole symbols, and what holds of every one of them.

use vmp::error::ParseFailure;
use vmp::function_name::{FunctionName, FunctionNameError};
use vmp::limits::{MAX_INPUT_BYTES, MAX_MSVC_NESTING_DEPTH, MAX_OUTPUT_BYTES};
use vmp::msvc::flags::{UNDNAME_COMPLETE, UNDNAME_NAME_ONLY, UNDNAME_NO_ARGUMENTS};
use vmp::msvc::parser::{demangle, MsvcParser};
use vmp::msvc::state::{AttemptBudget, RefArray};

#[test]
fn a_function_is_rendered_with_its_selector() {
    let name = demangle("?f@C@@QAEHXZ", UNDNAME_COMPLETE).expect("a sound symbol");
    assert_eq!(name.full_name(), "public: int __thiscall C::f(void)");
    assert_eq!(name.name(), "C::f(void)");
    let name = demangle("?f@C@@QAEHXZ", UNDNAME_NAME_ONLY).expect("a sound symbol");
    assert_eq!(name.full_name(), "C::f");
    assert_eq!(name.name(), "C::f");
}

#[test]
fn a_symbol_starts_with_a_question_mark() {
    assert_eq!(
        demangle("f@@YAXXZ", UNDNAME_COMPLETE),
        Err(ParseFailure::InvalidMsvcPrefix {
            offset: 0,
            found: Some(b'f'),
        })
    );
    assert_eq!(
        demangle("", UNDNAME_COMPLETE),
        Err(ParseFailure::InvalidMsvcPrefix {
            offset: 0,
            found: None,
        })
    );
}

#[test]
fn leaving_out_arguments_is_refused() {
    assert_eq!(
        demangle("?f@C@@QAEHXZ", UNDNAME_NO_ARGUMENTS),
        Err(ParseFailure::UnsupportedNoArguments { offset: 0 })
    );
}

#[test]
fn long_input_is_refused() {
    let long = "?".repeat(MAX_INPUT_BYTES + 1);
    assert_eq!(
        demangle(&long, UNDNAME_COMPLETE),
        Err(ParseFailure::InputLimitExceeded {
            attempted: MAX_INPUT_BYTES + 1,
            limit: MAX_INPUT_BYTES,
        })
    );
}

#[test]
fn nesting_stops_at_the_limit() {
    let nested = |levels: usize| {
        let mut symbol = String::from("?g@@YA@XZ");
        for _ in 0..levels {
            symbol = format!("?f@?{symbol}@YA@XZ");
        }
        symbol
    };
    assert!(demangle(&nested(MAX_MSVC_NESTING_DEPTH - 1), UNDNAME_COMPLETE).is_ok());
    assert_eq!(
        demangle(&nested(MAX_MSVC_NESTING_DEPTH), UNDNAME_COMPLETE),
        Err(ParseFailure::NestingLimitExceeded {
            attempted: MAX_MSVC_NESTING_DEPTH + 1,
            limit: MAX_MSVC_NESTING_DEPTH,
        })
    );
}

#[test]
fn a_symbol_that_nests_too_deep_is_left_unread() {
    let mut parser = MsvcParser::new(b"?g@@YA@XZ", UNDNAME_COMPLETE).expect("short input");
    parser.depth = MAX_MSVC_NESTING_DEPTH;
    assert_eq!(
        parser.parse_nested_symbol(),
        Err(ParseFailure::NestingLimitExceeded {
            attempted: MAX_MSVC_NESTING_DEPTH + 1,
            limit: MAX_MSVC_NESTING_DEPTH,
        })
    );
    assert_eq!(parser.cursor.position(), 0);
    assert_eq!(parser.names.num, 0);
    assert_eq!(parser.budget.used(), 0);
}

#[test]
fn output_stays_within_its_limit() {
    // one long class name, and many arguments of that type
    let symbol = |arguments: usize| {
        format!("?f@@YAXV{}@@{}@Z", "A".repeat(5000), "0".repeat(arguments))
    };
    let name = demangle(&symbol(10), UNDNAME_COMPLETE).expect("a sound symbol");
    assert!(name.full_name().len() > 50_000);
    assert!(name.full_name().len() <= MAX_OUTPUT_BYTES);
    assert!(matches!(
        demangle(&symbol(400), UNDNAME_COMPLETE),
        Err(ParseFailure::OutputLimitExceeded { .. })
    ));
}

#[test]
fn a_failed_parse_leaves_stack_and_depth_as_they_were() {
    let inputs: [&[u8]; 4] = [b"?f@C@@QAEH", b"?f@?$C@VFoo@", b"??0C@@", b"?f@?A@"];
    for input in inputs {
        let mut parser = MsvcParser::new(input, UNDNAME_COMPLETE).expect("short input");
        assert!(parser.parse_symbol().is_err());
        assert_eq!(parser.stack.num, 0);
        assert_eq!(parser.depth, 0);
        assert!(parser.stack.max >= parser.stack.num);
        assert_eq!(parser.stack.max, parser.stack.slots.len());
        assert_eq!(parser.names.max, parser.names.slots.len());
        assert!(parser.budget.used() <= MAX_OUTPUT_BYTES);
    }
}

#[test]
fn a_selector_lies_on_a_boundary_of_the_name() {
    let name = FunctionName::new("int é()".to_string(), 4).expect("a boundary");
    assert_eq!(name.name(), "é()");
    assert_eq!(
        FunctionName::new("int é()".to_string(), 5),
        Err(FunctionNameError::SelectorNotOnCharBoundary { selector_start: 5 })
    );
    assert_eq!(
        FunctionName::new("int".to_string(), 4),
        Err(FunctionNameError::SelectorOutOfBounds {
            selector_start: 4,
            len: 3,
        })
    );
}

#[test]
fn a_copy_is_charged_exactly_or_not_at_all() {
    let mut budget = AttemptBudget::with_limit(5);
    assert_eq!(budget.copy_string("abc").as_deref(), Ok("abc"));
    assert_eq!(budget.used(), 3);
    assert_eq!(
        budget.copy_string("def"),
        Err(ParseFailure::OutputLimitExceeded {
            attempted: 6,
            limit: 5,
        })
    );
    assert_eq!(budget.used(), 3);
    assert_eq!(budget.copy_string("de").as_deref(), Ok("de"));
    assert_eq!(budget.used(), 5);
}

#[test]
fn cut_entries_come_back() {
    let mut budget = AttemptBudget::new();
    let mut table = RefArray::with_limit(4);
    table.push("a", &mut budget).expect("room");
    table.push("b", &mut budget).expect("room");
    table.push_pair("c", "d", &mut budget).expect("room");
    table.restore_num(1).expect("below the mark");
    assert_eq!(table.reference(3), Ok("d"));
    table.restore_num(4).expect("up to the mark");
    assert_eq!(table.active_absolute_reference(3), Ok("d"));
    table.set_start(2).expect("below the mark");
    assert_eq!(table.reference(0), Ok("c"));
    table.restore_num(0).expect("below the mark");
    assert_eq!(table.reference(1), Ok("d"));
    table.restore_num(4).expect("up to the mark");
    assert_eq!(
        table.push("e", &mut budget),
        Err(ParseFailure::ReferenceLimitExceeded {
            attempted: 5,
            limit: 4,
        })
    );
    assert_eq!(table.num, 4);
    assert_eq!(budget.used(), 4);
}
