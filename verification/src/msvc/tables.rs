//! How the entries of the code tables relate to one another.

use vstd::prelude::*;

use crate::msvc::codes;
use crate::msvc::codes::OperatorAction;
use crate::msvc::flags::{
    UNDNAME_NO_ALLOCATION_LANGUAGE, UNDNAME_NO_LEADING_UNDERSCORES, UNDNAME_NO_MS_KEYWORDS,
};
use crate::msvc::grammar;
use crate::text::Text;

verus! {

// ---------------------------------------------------------------------------
// Types
// ---------------------------------------------------------------------------

/// The name of a type with a one-letter code.
pub open spec fn plain_name(code: char) -> Text {
    codes::ordinary_primitive(code)->0@
}

/// The name of a type whose code follows an underscore.
pub open spec fn sized_name(code: char) -> Text {
    codes::extended_primitive(code)->0@
}

/// The word in front of an unsigned type.
pub open spec fn unsigned() -> Text {
    seq!['u', 'n', 's', 'i', 'g', 'n', 'e', 'd', ' ']
}

/// The code behind that of a signed type is that of its unsigned counterpart.
pub proof fn lemma_unsigned_follows_signed()
    ensures
        plain_name('E') == unsigned() + plain_name('D'),
        plain_name('G') == unsigned() + plain_name('F'),
        plain_name('I') == unsigned() + plain_name('H'),
        plain_name('K') == unsigned() + plain_name('J'),
        sized_name('E') == unsigned() + sized_name('D'),
        sized_name('G') == unsigned() + sized_name('F'),
        sized_name('I') == unsigned() + sized_name('H'),
        sized_name('K') == unsigned() + sized_name('J'),
        sized_name('M') == unsigned() + sized_name('L'),
        plain_name('C') == unsigned().skip(2) + plain_name('D'),
        plain_name('O') == plain_name('J') + seq![' '] + plain_name('N'),
{
    reveal_strlit("signed char");
    reveal_strlit("char");
    reveal_strlit("unsigned char");
    reveal_strlit("short");
    reveal_strlit("unsigned short");
    reveal_strlit("int");
    reveal_strlit("unsigned int");
    reveal_strlit("long");
    reveal_strlit("unsigned long");
    reveal_strlit("double");
    reveal_strlit("long double");
    reveal_strlit("__int8");
    reveal_strlit("unsigned __int8");
    reveal_strlit("__int16");
    reveal_strlit("unsigned __int16");
    reveal_strlit("__int32");
    reveal_strlit("unsigned __int32");
    reveal_strlit("__int64");
    reveal_strlit("unsigned __int64");
    reveal_strlit("__int128");
    reveal_strlit("unsigned __int128");
    assert(plain_name('E') =~= unsigned() + plain_name('D'));
    assert(plain_name('G') =~= unsigned() + plain_name('F'));
    assert(plain_name('I') =~= unsigned() + plain_name('H'));
    assert(plain_name('K') =~= unsigned() + plain_name('J'));
    assert(sized_name('E') =~= unsigned() + sized_name('D'));
    assert(sized_name('G') =~= unsigned() + sized_name('F'));
    assert(sized_name('I') =~= unsigned() + sized_name('H'));
    assert(sized_name('K') =~= unsigned() + sized_name('J'));
    assert(sized_name('M') =~= unsigned() + sized_name('L'));
    assert(plain_name('C') =~= unsigned().skip(2) + plain_name('D'));
    assert(plain_name('O') =~= plain_name('J') + seq![' '] + plain_name('N'));
}

/// Which codes stand for types.
pub proof fn lemma_type_codes(code: char)
    ensures
        (codes::ordinary_primitive(code) is Some) == ('C' <= code <= 'K' || 'M' <= code <= 'O'
            || code == 'X' || code == 'Z'),
        (codes::extended_primitive(code) is Some) == ('D' <= code <= 'N' || code == 'W'),
{
}

// ---------------------------------------------------------------------------
// Functions
// ---------------------------------------------------------------------------

/// The method codes stand in three runs of eight for the three kinds of access, and
/// each run has the same order: plain, static, virtual and adjusting functions, each
/// for near and far calls.
pub proof fn lemma_method_codes_repeat(code: char)
    requires
        'A' <= code <= 'H',
    ensures
        ({
            let own = codes::method_kind(code);
            let guarded = codes::method_kind((code as u32 + 8) as char);
            let open = codes::method_kind((code as u32 + 16) as char);
            let place = code as int - 'A' as int;
            &&& own.access == "private: "
            &&& guarded.access == "protected: "
            &&& open.access == "public: "
            &&& own.member_type == guarded.member_type && own.member_type == open.member_type
            &&& own.has_this == guarded.has_this && own.has_this == open.has_this
            &&& own.thunk == guarded.thunk && own.thunk == open.thunk
            &&& own.member_type == (if place / 2 == 0 {
                ""
            } else if place / 2 == 1 {
                "static "
            } else {
                "virtual "
            })
            &&& own.has_this == (place / 2 != 1)
            &&& (own.thunk is Some) == (place / 2 == 3)
        }),
{
}

/// A free function has no access, no `this` and no adjustment. Every function has a
/// result and arguments.
pub proof fn lemma_free_functions_are_plain(code: char)
    requires
        'A' <= code <= 'Z',
    ensures
        codes::method_kind(code).has_return,
        codes::method_kind(code).has_arguments,
        code == 'Y' || code == 'Z' ==> codes::method_kind(code).access == ""
            && codes::method_kind(code).member_type == "" && !codes::method_kind(code).has_this
            && codes::method_kind(code).thunk is None,
{
}

/// Each calling convention has two codes, of which the second says that the function is
/// exported.
pub proof fn lemma_convention_codes_pair(code: u8, flags: u16)
    requires
        code == 'A' as u8 || code == 'C' as u8 || code == 'E' as u8 || code == 'G' as u8 || code
            == 'I' as u8 || code == 'K' as u8,
    ensures
        ({
            let plain = codes::convention(code, flags);
            let exported = codes::convention((code + 1) as u8, flags);
            &&& plain is Ok && exported is Ok
            &&& plain->Ok_0.calling_convention == exported->Ok_0.calling_convention
            &&& plain->Ok_0.exported is None
            &&& (exported->Ok_0.exported is Some) == (flags & (
            UNDNAME_NO_MS_KEYWORDS
                | UNDNAME_NO_ALLOCATION_LANGUAGE) == 0)
            &&& plain->Ok_0.calling_convention is Some ==> code != 'K' as u8
        }),
{
}

/// The text of a keyword is its name, with two underscores in front unless these are
/// left out.
pub open spec fn underscored(word: Text) -> Text {
    seq!['_', '_'] + word
}

/// The calling conventions have the same names with and without underscores.
pub proof fn lemma_conventions_lose_underscores(code: u8, bare: u16, usual: u16)
    requires
        'A' as u8 <= code <= 'M' as u8,
        bare & (UNDNAME_NO_MS_KEYWORDS
            | UNDNAME_NO_ALLOCATION_LANGUAGE) == 0,
        usual & (UNDNAME_NO_MS_KEYWORDS
            | UNDNAME_NO_ALLOCATION_LANGUAGE) == 0,
        bare & UNDNAME_NO_LEADING_UNDERSCORES != 0,
        usual & UNDNAME_NO_LEADING_UNDERSCORES == 0,
    ensures
        ({
            let short = codes::convention(code, bare)->Ok_0;
            let long = codes::convention(code, usual)->Ok_0;
            &&& (short.calling_convention is Some) == (long.calling_convention is Some)
            &&& (short.exported is Some) == (long.exported is Some)
            &&& long.calling_convention matches Some(word) ==> word@ == underscored(
                short.calling_convention->0@,
            )
            &&& long.exported matches Some(word) ==> word@ == underscored(short.exported->0@)
        }),
{
    reveal_strlit("cdecl");
    reveal_strlit("__cdecl");
    reveal_strlit("pascal");
    reveal_strlit("__pascal");
    reveal_strlit("thiscall");
    reveal_strlit("__thiscall");
    reveal_strlit("stdcall");
    reveal_strlit("__stdcall");
    reveal_strlit("fastcall");
    reveal_strlit("__fastcall");
    reveal_strlit("clrcall");
    reveal_strlit("__clrcall");
    reveal_strlit("dll_export ");
    reveal_strlit("__dll_export ");
    assert("__cdecl"@ =~= underscored("cdecl"@));
    assert("__pascal"@ =~= underscored("pascal"@));
    assert("__thiscall"@ =~= underscored("thiscall"@));
    assert("__stdcall"@ =~= underscored("stdcall"@));
    assert("__fastcall"@ =~= underscored("fastcall"@));
    assert("__clrcall"@ =~= underscored("clrcall"@));
    assert("__dll_export "@ =~= underscored("dll_export "@));
}

/// The qualifiers: the code for both is that of `const` and of `volatile` together, an
/// `E` in front changes the pointer keyword alone, and nothing else is a qualifier.
pub proof fn lemma_qualifiers_combine(input: Seq<u8>, flags: u16, pos: usize)
    requires
        pos + 1 < input.len() <= usize::MAX,
        input[pos as int] != 'E' as u8,
    ensures
        ({
            let (read, behind) = grammar::modifier_at(input, flags, pos);
            let code = input[pos as int];
            &&& behind == pos + 1
            &&& (read is Ok) == ('A' as u8 <= code <= 'D' as u8)
            &&& read matches Ok(modifier) ==> modifier.pointer_modifier is None
            &&& code == 'A' as u8 ==> read->Ok_0.qualifier is None
            &&& code == 'B' as u8 ==> read->Ok_0.qualifier->0@ == seq!['c', 'o', 'n', 's', 't']
            &&& code == 'C' as u8 ==> read->Ok_0.qualifier->0@ == seq![
                'v',
                'o',
                'l',
                'a',
                't',
                'i',
                'l',
                'e',
            ]
            &&& code == 'D' as u8 ==> read->Ok_0.qualifier->0@ == seq![
                'c',
                'o',
                'n',
                's',
                't',
                ' ',
            ] + seq!['v', 'o', 'l', 'a', 't', 'i', 'l', 'e']
            &&& code == 'B' as u8 || code == 'C' as u8 || code == 'D' as u8
                ==> read->Ok_0.qualifier is Some
        }),
{
    reveal_strlit("const");
    reveal_strlit("volatile");
    reveal_strlit("const volatile");
    assert("const"@ =~= seq!['c', 'o', 'n', 's', 't']);
    assert("volatile"@ =~= seq!['v', 'o', 'l', 'a', 't', 'i', 'l', 'e']);
    assert("const volatile"@ =~= seq!['c', 'o', 'n', 's', 't', ' '] + seq![
        'v',
        'o',
        'l',
        'a',
        't',
        'i',
        'l',
        'e',
    ]);
}

// ---------------------------------------------------------------------------
// Operators
// ---------------------------------------------------------------------------

/// The name that an operator is rendered by, where it has one of its own.
pub open spec fn simple_name(action: Option<OperatorAction>) -> Text {
    action->0->Simple_0@
}

/// `whole` is the operator `part` with `suffix` behind it.
pub open spec fn is_extended_by(
    whole: Option<OperatorAction>,
    part: Option<OperatorAction>,
    suffix: Text,
) -> bool {
    &&& whole is Some && whole->0 is Simple
    &&& part is Some && part->0 is Simple
    &&& simple_name(whole) == simple_name(part) + suffix
}

/// Each compound assignment, and each comparison that allows equality, is its operator
/// with an equals sign behind it.
pub proof fn lemma_assignments_extend_operators()
    ensures
        is_extended_by(codes::primary_operator('X'), codes::primary_operator('D'), seq!['=']),
        is_extended_by(codes::primary_operator('Y'), codes::primary_operator('H'), seq!['=']),
        is_extended_by(codes::primary_operator('Z'), codes::primary_operator('G'), seq!['=']),
        is_extended_by(codes::secondary_operator('0'), codes::primary_operator('K'), seq!['=']),
        is_extended_by(codes::secondary_operator('1'), codes::primary_operator('L'), seq!['=']),
        is_extended_by(codes::secondary_operator('2'), codes::primary_operator('5'), seq!['=']),
        is_extended_by(codes::secondary_operator('3'), codes::primary_operator('6'), seq!['=']),
        is_extended_by(codes::secondary_operator('4'), codes::primary_operator('I'), seq!['=']),
        is_extended_by(codes::secondary_operator('5'), codes::primary_operator('U'), seq!['=']),
        is_extended_by(codes::secondary_operator('6'), codes::primary_operator('T'), seq!['=']),
        is_extended_by(codes::primary_operator('8'), codes::primary_operator('4'), seq!['=']),
        is_extended_by(codes::primary_operator('9'), codes::primary_operator('7'), seq!['=']),
        is_extended_by(codes::primary_operator('N'), codes::primary_operator('M'), seq!['=']),
        is_extended_by(codes::primary_operator('P'), codes::primary_operator('O'), seq!['=']),
{
    reveal_strlit("operator*");
    reveal_strlit("operator*=");
    reveal_strlit("operator+");
    reveal_strlit("operator+=");
    reveal_strlit("operator-");
    reveal_strlit("operator-=");
    reveal_strlit("operator/");
    reveal_strlit("operator/=");
    reveal_strlit("operator%");
    reveal_strlit("operator%=");
    reveal_strlit("operator>>");
    reveal_strlit("operator>>=");
    reveal_strlit("operator<<");
    reveal_strlit("operator<<=");
    reveal_strlit("operator&");
    reveal_strlit("operator&=");
    reveal_strlit("operator|");
    reveal_strlit("operator|=");
    reveal_strlit("operator^");
    reveal_strlit("operator^=");
    reveal_strlit("operator=");
    reveal_strlit("operator==");
    reveal_strlit("operator!");
    reveal_strlit("operator!=");
    reveal_strlit("operator<");
    reveal_strlit("operator<=");
    reveal_strlit("operator>");
    reveal_strlit("operator>=");
    let equals = seq!['='];
    assert("operator*="@ =~= "operator*"@ + equals);
    assert("operator+="@ =~= "operator+"@ + equals);
    assert("operator-="@ =~= "operator-"@ + equals);
    assert("operator/="@ =~= "operator/"@ + equals);
    assert("operator%="@ =~= "operator%"@ + equals);
    assert("operator>>="@ =~= "operator>>"@ + equals);
    assert("operator<<="@ =~= "operator<<"@ + equals);
    assert("operator&="@ =~= "operator&"@ + equals);
    assert("operator|="@ =~= "operator|"@ + equals);
    assert("operator^="@ =~= "operator^"@ + equals);
    assert("operator=="@ =~= "operator="@ + equals);
    assert("operator!="@ =~= "operator!"@ + equals);
    assert("operator<="@ =~= "operator<"@ + equals);
    assert("operator>="@ =~= "operator>"@ + equals);
}

/// Operators that are written twice, and those for arrays and through pointers, are
/// their simple operators with more behind them.
pub proof fn lemma_longer_operators_extend_shorter()
    ensures
        is_extended_by(codes::primary_operator('E'), codes::primary_operator('H'), seq!['+']),
        is_extended_by(codes::primary_operator('F'), codes::primary_operator('G'), seq!['-']),
        is_extended_by(codes::primary_operator('V'), codes::primary_operator('I'), seq!['&']),
        is_extended_by(codes::primary_operator('W'), codes::primary_operator('U'), seq!['|']),
        is_extended_by(codes::primary_operator('5'), codes::primary_operator('O'), seq!['>']),
        is_extended_by(codes::primary_operator('6'), codes::primary_operator('M'), seq!['<']),
        is_extended_by(codes::primary_operator('C'), codes::primary_operator('G'), seq!['>']),
        is_extended_by(codes::primary_operator('J'), codes::primary_operator('C'), seq!['*']),
        is_extended_by(codes::secondary_operator('U'), codes::primary_operator('2'), seq!['[', ']']),
        is_extended_by(codes::secondary_operator('V'), codes::primary_operator('3'), seq!['[', ']']),
{
    reveal_strlit("operator+");
    reveal_strlit("operator++");
    reveal_strlit("operator-");
    reveal_strlit("operator--");
    reveal_strlit("operator&");
    reveal_strlit("operator&&");
    reveal_strlit("operator|");
    reveal_strlit("operator||");
    reveal_strlit("operator>");
    reveal_strlit("operator>>");
    reveal_strlit("operator<");
    reveal_strlit("operator<<");
    reveal_strlit("operator->");
    reveal_strlit("operator->*");
    reveal_strlit("operator new");
    reveal_strlit("operator new[]");
    reveal_strlit("operator delete");
    reveal_strlit("operator delete[]");
    assert("operator++"@ =~= "operator+"@ + seq!['+']);
    assert("operator--"@ =~= "operator-"@ + seq!['-']);
    assert("operator&&"@ =~= "operator&"@ + seq!['&']);
    assert("operator||"@ =~= "operator|"@ + seq!['|']);
    assert("operator>>"@ =~= "operator>"@ + seq!['>']);
    assert("operator<<"@ =~= "operator<"@ + seq!['<']);
    assert("operator->"@ =~= "operator-"@ + seq!['>']);
    assert("operator->*"@ =~= "operator->"@ + seq!['*']);
    assert("operator new[]"@ =~= "operator new"@ + seq!['[', ']']);
    assert("operator delete[]"@ =~= "operator delete"@ + seq!['[', ']']);
}

/// Every digit and every capital letter is the code of an operator. Behind one
/// underscore a few letters are not.
pub proof fn lemma_operator_codes(code: char)
    ensures
        (codes::primary_operator(code) is Some) == ('0' <= code <= '9' || 'A' <= code <= 'Z'),
        (codes::secondary_operator(code) is Some) == ('0' <= code <= '9' || 'A' <= code <= 'O'
            || 'S' <= code <= 'V' || code == 'X' || code == 'Y'),
        (codes::tertiary_operator(code) is Some) == ('A' <= code <= 'G'),
        (codes::rtti_operator(code) is Some) == ('0' <= code <= '4'),
{
}

} // verus!
