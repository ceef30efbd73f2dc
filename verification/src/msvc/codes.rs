//! The codes of the encoding and what they select.

use vstd::prelude::*;

use crate::error::ParseFailure;
use crate::msvc::flags::{
    UNDNAME_NO_ALLOCATION_LANGUAGE, UNDNAME_NO_LEADING_UNDERSCORES, UNDNAME_NO_MS_KEYWORDS,
};

verus! {

/// A calling convention and an export mark.
#[derive(Debug, Clone, Copy, PartialEq, Eq)]
pub struct CallingConvention {
    pub calling_convention: Option<&'static str>,
    pub exported: Option<&'static str>,
}

/// A qualifier and a pointer keyword.
#[derive(Debug, Clone, Copy, PartialEq, Eq)]
pub struct Modifier {
    pub qualifier: Option<&'static str>,
    pub pointer_modifier: Option<&'static str>,
}

/// What an operator code selects.
#[derive(Debug, Clone, Copy, PartialEq, Eq)]
pub enum OperatorAction {
    Constructor,
    Destructor,
    Conversion,
    Dynamic(DynamicOperator),
    ImmediateString(&'static str),
    Rtti(RttiOperator),
    Simple(&'static str),
}

/// Code that runs around the lifetime of a variable.
#[derive(Debug, Clone, Copy, PartialEq, Eq)]
pub enum DynamicOperator {
    Initializer,
    AtexitDestructor,
}

/// Run-time type information.
#[derive(Debug, Clone, Copy, PartialEq, Eq)]
pub enum RttiOperator {
    TypeDescriptor,
    BaseClassDescriptor,
    BaseClassArray,
    ClassHierarchyDescriptor,
    CompleteObjectLocator,
}

/// How a thunk reaches its function.
#[derive(Debug, Clone, Copy, PartialEq, Eq)]
pub enum ThunkKind {
    Adjustor,
    Vtordisp,
    Vtordispex,
    Vcall,
}

/// What a method code says of a method.
#[derive(Debug, Clone, Copy, PartialEq, Eq)]
pub struct MethodKind {
    pub access: &'static str,
    pub member_type: &'static str,
    pub has_this: bool,
    pub has_return: bool,
    pub has_arguments: bool,
    pub thunk: Option<ThunkKind>,
}

/// The start of a top-level parse.
#[derive(Debug, Clone, Copy, PartialEq, Eq)]
pub enum TopLevel {
    Symbol,
    OrdinaryData,
    OrdinaryMethod,
    OperatorMethod,
}

/// `byte` lies between the codes of `low` and `high`.
pub open spec fn between(byte: u8, low: char, high: char) -> bool {
    low as u8 <= byte && byte <= high as u8
}

/// Types with a one-letter code.
pub open spec fn ordinary_primitive(code: char) -> Option<&'static str> {
    match code {
        'C' => Some("signed char"),
        'D' => Some("char"),
        'E' => Some("unsigned char"),
        'F' => Some("short"),
        'G' => Some("unsigned short"),
        'H' => Some("int"),
        'I' => Some("unsigned int"),
        'J' => Some("long"),
        'K' => Some("unsigned long"),
        'M' => Some("float"),
        'N' => Some("double"),
        'O' => Some("long double"),
        'X' => Some("void"),
        'Z' => Some("..."),
        _ => None,
    }
}

/// Types with a code that follows an underscore.
pub open spec fn extended_primitive(code: char) -> Option<&'static str> {
    match code {
        'D' => Some("__int8"),
        'E' => Some("unsigned __int8"),
        'F' => Some("__int16"),
        'G' => Some("unsigned __int16"),
        'H' => Some("__int32"),
        'I' => Some("unsigned __int32"),
        'J' => Some("__int64"),
        'K' => Some("unsigned __int64"),
        'L' => Some("__int128"),
        'M' => Some("unsigned __int128"),
        'N' => Some("bool"),
        'W' => Some("wchar_t"),
        _ => None,
    }
}

/// Operators with a one-character code.
pub open spec fn primary_operator(code: char) -> Option<OperatorAction> {
    match code {
        '0' => Some(OperatorAction::Constructor),
        '1' => Some(OperatorAction::Destructor),
        '2' => Some(OperatorAction::Simple("operator new")),
        '3' => Some(OperatorAction::Simple("operator delete")),
        '4' => Some(OperatorAction::Simple("operator=")),
        '5' => Some(OperatorAction::Simple("operator>>")),
        '6' => Some(OperatorAction::Simple("operator<<")),
        '7' => Some(OperatorAction::Simple("operator!")),
        '8' => Some(OperatorAction::Simple("operator==")),
        '9' => Some(OperatorAction::Simple("operator!=")),
        'A' => Some(OperatorAction::Simple("operator[]")),
        'B' => Some(OperatorAction::Conversion),
        'C' => Some(OperatorAction::Simple("operator->")),
        'D' => Some(OperatorAction::Simple("operator*")),
        'E' => Some(OperatorAction::Simple("operator++")),
        'F' => Some(OperatorAction::Simple("operator--")),
        'G' => Some(OperatorAction::Simple("operator-")),
        'H' => Some(OperatorAction::Simple("operator+")),
        'I' => Some(OperatorAction::Simple("operator&")),
        'J' => Some(OperatorAction::Simple("operator->*")),
        'K' => Some(OperatorAction::Simple("operator/")),
        'L' => Some(OperatorAction::Simple("operator%")),
        'M' => Some(OperatorAction::Simple("operator<")),
        'N' => Some(OperatorAction::Simple("operator<=")),
        'O' => Some(OperatorAction::Simple("operator>")),
        'P' => Some(OperatorAction::Simple("operator>=")),
        'Q' => Some(OperatorAction::Simple("operator,")),
        'R' => Some(OperatorAction::Simple("operator()")),
        'S' => Some(OperatorAction::Simple("operator~")),
        'T' => Some(OperatorAction::Simple("operator^")),
        'U' => Some(OperatorAction::Simple("operator|")),
        'V' => Some(OperatorAction::Simple("operator&&")),
        'W' => Some(OperatorAction::Simple("operator||")),
        'X' => Some(OperatorAction::Simple("operator*=")),
        'Y' => Some(OperatorAction::Simple("operator+=")),
        'Z' => Some(OperatorAction::Simple("operator-=")),
        _ => None,
    }
}

/// Operators with a code that follows one underscore.
pub open spec fn secondary_operator(code: char) -> Option<OperatorAction> {
    match code {
        '0' => Some(OperatorAction::Simple("operator/=")),
        '1' => Some(OperatorAction::Simple("operator%=")),
        '2' => Some(OperatorAction::Simple("operator>>=")),
        '3' => Some(OperatorAction::Simple("operator<<=")),
        '4' => Some(OperatorAction::Simple("operator&=")),
        '5' => Some(OperatorAction::Simple("operator|=")),
        '6' => Some(OperatorAction::Simple("operator^=")),
        '7' => Some(OperatorAction::Simple("`vftable'")),
        '8' => Some(OperatorAction::Simple("`vbtable'")),
        '9' => Some(OperatorAction::Simple("`vcall'")),
        'A' => Some(OperatorAction::Simple("`typeof'")),
        'B' => Some(OperatorAction::Simple("`local static guard'")),
        'C' => Some(OperatorAction::ImmediateString("`string'")),
        'D' => Some(OperatorAction::Simple("`vbase destructor'")),
        'E' => Some(OperatorAction::Simple("`vector deleting destructor'")),
        'F' => Some(OperatorAction::Simple("`default constructor closure'")),
        'G' => Some(OperatorAction::Simple("`scalar deleting destructor'")),
        'H' => Some(OperatorAction::Simple("`vector constructor iterator'")),
        'I' => Some(OperatorAction::Simple("`vector destructor iterator'")),
        'J' => Some(OperatorAction::Simple("`vector vbase constructor iterator'")),
        'K' => Some(OperatorAction::Simple("`virtual displacement map'")),
        'L' => Some(OperatorAction::Simple("`eh vector constructor iterator'")),
        'M' => Some(OperatorAction::Simple("`eh vector destructor iterator'")),
        'N' => Some(OperatorAction::Simple("`eh vector vbase constructor iterator'")),
        'O' => Some(OperatorAction::Simple("`copy constructor closure'")),
        'S' => Some(OperatorAction::Simple("`local vftable'")),
        'T' => Some(OperatorAction::Simple("`local vftable constructor closure'")),
        'U' => Some(OperatorAction::Simple("operator new[]")),
        'V' => Some(OperatorAction::Simple("operator delete[]")),
        'X' => Some(OperatorAction::Simple("`placement delete closure'")),
        'Y' => Some(OperatorAction::Simple("`placement delete[] closure'")),
        _ => None,
    }
}

/// Operators with a code that follows two underscores.
pub open spec fn tertiary_operator(code: char) -> Option<OperatorAction> {
    match code {
        'A' => Some(OperatorAction::Simple("`managed vector constructor iterator'")),
        'B' => Some(OperatorAction::Simple("`managed vector destructor iterator'")),
        'C' => Some(OperatorAction::Simple("`eh vector copy constructor iterator'")),
        'D' => Some(OperatorAction::Simple("`eh vector vbase copy constructor iterator'")),
        'E' => Some(OperatorAction::Dynamic(DynamicOperator::Initializer)),
        'F' => Some(OperatorAction::Dynamic(DynamicOperator::AtexitDestructor)),
        'G' => Some(OperatorAction::Simple("`vector copy constructor iterator'")),
        _ => None,
    }
}

/// Run-time type information, by the code that follows `_R`.
pub open spec fn rtti_operator(code: char) -> Option<OperatorAction> {
    match code {
        '0' => Some(OperatorAction::Rtti(RttiOperator::TypeDescriptor)),
        '1' => Some(OperatorAction::Rtti(RttiOperator::BaseClassDescriptor)),
        '2' => Some(OperatorAction::Rtti(RttiOperator::BaseClassArray)),
        '3' => Some(OperatorAction::Rtti(RttiOperator::ClassHierarchyDescriptor)),
        '4' => Some(OperatorAction::Rtti(RttiOperator::CompleteObjectLocator)),
        _ => None,
    }
}

/// The fixed name of an operator, where it has one.
pub open spec fn operator_name(action: OperatorAction) -> Option<&'static str> {
    match action {
        OperatorAction::Constructor | OperatorAction::Destructor | OperatorAction::Dynamic(_) =>
            None,
        OperatorAction::Conversion => Some("operator "),
        OperatorAction::Rtti(operator) => match operator {
            RttiOperator::TypeDescriptor | RttiOperator::BaseClassDescriptor => None,
            RttiOperator::BaseClassArray => Some("`RTTI Base Class Array'"),
            RttiOperator::ClassHierarchyDescriptor => Some("`RTTI Class Hierarchy Descriptor'"),
            RttiOperator::CompleteObjectLocator => Some("`RTTI Complete Object Locator'"),
        },
        OperatorAction::ImmediateString(name) => Some(name),
        OperatorAction::Simple(name) => Some(name),
    }
}

/// A constructor or a destructor: it is named after its class.
pub open spec fn named_after_class(action: OperatorAction) -> bool {
    action is Constructor || action is Destructor
}

/// What a one-letter method code says.
pub open spec fn method_kind(code: char) -> MethodKind {
    let access = match code {
        'A'..='H' => "private: ",
        'I'..='P' => "protected: ",
        'Q'..='X' => "public: ",
        _ => "",
    };
    let (member_type, has_this, thunk) = match code {
        'C' | 'D' | 'K' | 'L' | 'S' | 'T' => ("static ", false, None),
        'E' | 'F' | 'M' | 'N' | 'U' | 'V' => ("virtual ", true, None),
        'G' | 'H' | 'O' | 'P' | 'W' | 'X' => ("virtual ", true, Some(ThunkKind::Adjustor)),
        'Y' | 'Z' => ("", false, None),
        _ => ("", true, None),
    };
    MethodKind { access, member_type, has_this, has_return: true, has_arguments: true, thunk }
}

/// A thunk with the given access. A `Vcall` thunk is rendered by its name alone.
pub open spec fn thunk_kind(access: &'static str, thunk: ThunkKind) -> MethodKind {
    let virtual_method = !(thunk is Vcall);
    MethodKind {
        access,
        member_type: if virtual_method {
            "virtual "
        } else {
            ""
        },
        has_this: virtual_method,
        has_return: virtual_method,
        has_arguments: virtual_method,
        thunk: Some(thunk),
    }
}

/// The access that a thunk code selects.
pub open spec fn access_of_thunk(code: char) -> Option<&'static str> {
    match code {
        '0' | '1' => Some("private: "),
        '2' | '3' => Some("protected: "),
        '4' | '5' => Some("public: "),
        _ => None,
    }
}

/// The keyword for `plain`, with or without its leading underscores.
pub open spec fn keyword(
    flags: u16,
    plain: &'static str,
    underscored: &'static str,
) -> &'static str {
    if flags & UNDNAME_NO_LEADING_UNDERSCORES != 0 {
        plain
    } else {
        underscored
    }
}

/// The calling convention of a code. Nothing is looked up where the flags leave
/// calling conventions out.
pub open spec fn convention(byte: u8, flags: u16) -> Result<CallingConvention, ParseFailure> {
    if flags & (UNDNAME_NO_MS_KEYWORDS | UNDNAME_NO_ALLOCATION_LANGUAGE) != 0 {
        Ok(CallingConvention { calling_convention: None, exported: None })
    } else if !between(byte, 'A', 'M') {
        Err(ParseFailure::InvalidCallingConvention { found: byte })
    } else {
        Ok(
            CallingConvention {
                calling_convention: match byte as char {
                    'A' | 'B' => Some(keyword(flags, "cdecl", "__cdecl")),
                    'C' | 'D' => Some(keyword(flags, "pascal", "__pascal")),
                    'E' | 'F' => Some(keyword(flags, "thiscall", "__thiscall")),
                    'G' | 'H' => Some(keyword(flags, "stdcall", "__stdcall")),
                    'I' | 'J' => Some(keyword(flags, "fastcall", "__fastcall")),
                    'K' | 'L' => None,
                    _ => Some(keyword(flags, "clrcall", "__clrcall")),
                },
                exported: match byte as char {
                    'B' | 'D' | 'F' | 'H' | 'J' | 'L' => Some(
                        keyword(flags, "dll_export ", "__dll_export "),
                    ),
                    _ => None,
                },
            },
        )
    }
}

/// The type that a one-letter code stands for.
pub fn ordinary_primitive_type(byte: u8) -> (name: Option<&'static str>)
    ensures
        name == ordinary_primitive(byte as char),
{
    match byte as char {
        'C' => Some("signed char"),
        'D' => Some("char"),
        'E' => Some("unsigned char"),
        'F' => Some("short"),
        'G' => Some("unsigned short"),
        'H' => Some("int"),
        'I' => Some("unsigned int"),
        'J' => Some("long"),
        'K' => Some("unsigned long"),
        'M' => Some("float"),
        'N' => Some("double"),
        'O' => Some("long double"),
        'X' => Some("void"),
        'Z' => Some("..."),
        _ => None,
    }
}

/// The type that a code after an underscore stands for.
pub fn extended_primitive_type(byte: u8) -> (name: Option<&'static str>)
    ensures
        name == extended_primitive(byte as char),
{
    match byte as char {
        'D' => Some("__int8"),
        'E' => Some("unsigned __int8"),
        'F' => Some("__int16"),
        'G' => Some("unsigned __int16"),
        'H' => Some("__int32"),
        'I' => Some("unsigned __int32"),
        'J' => Some("__int64"),
        'K' => Some("unsigned __int64"),
        'L' => Some("__int128"),
        'M' => Some("unsigned __int128"),
        'N' => Some("bool"),
        'W' => Some("wchar_t"),
        _ => None,
    }
}

/// The access of a thunk.
pub fn thunk_access(subtype: u8) -> (access: Option<&'static str>)
    ensures
        access == access_of_thunk(subtype as char),
{
    match subtype as char {
        '0' | '1' => Some("private: "),
        '2' | '3' => Some("protected: "),
        '4' | '5' => Some("public: "),
        _ => None,
    }
}

/// The operator of a one-character code.
pub fn decode_primary_operator(code: u8) -> (action: Option<OperatorAction>)
    ensures
        action == primary_operator(code as char),
{
    match code as char {
        '0' => Some(OperatorAction::Constructor),
        '1' => Some(OperatorAction::Destructor),
        '2' => Some(OperatorAction::Simple("operator new")),
        '3' => Some(OperatorAction::Simple("operator delete")),
        '4' => Some(OperatorAction::Simple("operator=")),
        '5' => Some(OperatorAction::Simple("operator>>")),
        '6' => Some(OperatorAction::Simple("operator<<")),
        '7' => Some(OperatorAction::Simple("operator!")),
        '8' => Some(OperatorAction::Simple("operator==")),
        '9' => Some(OperatorAction::Simple("operator!=")),
        'A' => Some(OperatorAction::Simple("operator[]")),
        'B' => Some(OperatorAction::Conversion),
        'C' => Some(OperatorAction::Simple("operator->")),
        'D' => Some(OperatorAction::Simple("operator*")),
        'E' => Some(OperatorAction::Simple("operator++")),
        'F' => Some(OperatorAction::Simple("operator--")),
        'G' => Some(OperatorAction::Simple("operator-")),
        'H' => Some(OperatorAction::Simple("operator+")),
        'I' => Some(OperatorAction::Simple("operator&")),
        'J' => Some(OperatorAction::Simple("operator->*")),
        'K' => Some(OperatorAction::Simple("operator/")),
        'L' => Some(OperatorAction::Simple("operator%")),
        'M' => Some(OperatorAction::Simple("operator<")),
        'N' => Some(OperatorAction::Simple("operator<=")),
        'O' => Some(OperatorAction::Simple("operator>")),
        'P' => Some(OperatorAction::Simple("operator>=")),
        'Q' => Some(OperatorAction::Simple("operator,")),
        'R' => Some(OperatorAction::Simple("operator()")),
        'S' => Some(OperatorAction::Simple("operator~")),
        'T' => Some(OperatorAction::Simple("operator^")),
        'U' => Some(OperatorAction::Simple("operator|")),
        'V' => Some(OperatorAction::Simple("operator&&")),
        'W' => Some(OperatorAction::Simple("operator||")),
        'X' => Some(OperatorAction::Simple("operator*=")),
        'Y' => Some(OperatorAction::Simple("operator+=")),
        'Z' => Some(OperatorAction::Simple("operator-=")),
        _ => None,
    }
}

/// The operator of a code after one underscore.
pub fn decode_secondary_operator(code: u8) -> (action: Option<OperatorAction>)
    ensures
        action == secondary_operator(code as char),
{
    match code as char {
        '0' => Some(OperatorAction::Simple("operator/=")),
        '1' => Some(OperatorAction::Simple("operator%=")),
        '2' => Some(OperatorAction::Simple("operator>>=")),
        '3' => Some(OperatorAction::Simple("operator<<=")),
        '4' => Some(OperatorAction::Simple("operator&=")),
        '5' => Some(OperatorAction::Simple("operator|=")),
        '6' => Some(OperatorAction::Simple("operator^=")),
        '7' => Some(OperatorAction::Simple("`vftable'")),
        '8' => Some(OperatorAction::Simple("`vbtable'")),
        '9' => Some(OperatorAction::Simple("`vcall'")),
        'A' => Some(OperatorAction::Simple("`typeof'")),
        'B' => Some(OperatorAction::Simple("`local static guard'")),
        'C' => Some(OperatorAction::ImmediateString("`string'")),
        'D' => Some(OperatorAction::Simple("`vbase destructor'")),
        'E' => Some(OperatorAction::Simple("`vector deleting destructor'")),
        'F' => Some(OperatorAction::Simple("`default constructor closure'")),
        'G' => Some(OperatorAction::Simple("`scalar deleting destructor'")),
        'H' => Some(OperatorAction::Simple("`vector constructor iterator'")),
        'I' => Some(OperatorAction::Simple("`vector destructor iterator'")),
        'J' => Some(OperatorAction::Simple("`vector vbase constructor iterator'")),
        'K' => Some(OperatorAction::Simple("`virtual displacement map'")),
        'L' => Some(OperatorAction::Simple("`eh vector constructor iterator'")),
        'M' => Some(OperatorAction::Simple("`eh vector destructor iterator'")),
        'N' => Some(OperatorAction::Simple("`eh vector vbase constructor iterator'")),
        'O' => Some(OperatorAction::Simple("`copy constructor closure'")),
        'S' => Some(OperatorAction::Simple("`local vftable'")),
        'T' => Some(OperatorAction::Simple("`local vftable constructor closure'")),
        'U' => Some(OperatorAction::Simple("operator new[]")),
        'V' => Some(OperatorAction::Simple("operator delete[]")),
        'X' => Some(OperatorAction::Simple("`placement delete closure'")),
        'Y' => Some(OperatorAction::Simple("`placement delete[] closure'")),
        _ => None,
    }
}

/// The operator of a code after two underscores.
pub fn decode_tertiary_operator(code: u8) -> (action: Option<OperatorAction>)
    ensures
        action == tertiary_operator(code as char),
{
    match code as char {
        'A' => Some(OperatorAction::Simple("`managed vector constructor iterator'")),
        'B' => Some(OperatorAction::Simple("`managed vector destructor iterator'")),
        'C' => Some(OperatorAction::Simple("`eh vector copy constructor iterator'")),
        'D' => Some(OperatorAction::Simple("`eh vector vbase copy constructor iterator'")),
        'E' => Some(OperatorAction::Dynamic(DynamicOperator::Initializer)),
        'F' => Some(OperatorAction::Dynamic(DynamicOperator::AtexitDestructor)),
        'G' => Some(OperatorAction::Simple("`vector copy constructor iterator'")),
        _ => None,
    }
}

/// The run-time type information of a code after `_R`.
pub fn decode_rtti_operator(code: u8) -> (action: Option<OperatorAction>)
    ensures
        action == rtti_operator(code as char),
{
    match code as char {
        '0' => Some(OperatorAction::Rtti(RttiOperator::TypeDescriptor)),
        '1' => Some(OperatorAction::Rtti(RttiOperator::BaseClassDescriptor)),
        '2' => Some(OperatorAction::Rtti(RttiOperator::BaseClassArray)),
        '3' => Some(OperatorAction::Rtti(RttiOperator::ClassHierarchyDescriptor)),
        '4' => Some(OperatorAction::Rtti(RttiOperator::CompleteObjectLocator)),
        _ => None,
    }
}

impl OperatorAction {
    /// The fixed name of this operator, where it has one.
    pub fn base_name(self) -> (name: Option<&'static str>)
        ensures
            name == operator_name(self),
    {
        match self {
            OperatorAction::Constructor | OperatorAction::Destructor | OperatorAction::Dynamic(_) =>
                None,
            OperatorAction::Conversion => Some("operator "),
            OperatorAction::Rtti(operator) => match operator {
                RttiOperator::TypeDescriptor | RttiOperator::BaseClassDescriptor => None,
                RttiOperator::BaseClassArray => Some("`RTTI Base Class Array'"),
                RttiOperator::ClassHierarchyDescriptor => Some("`RTTI Class Hierarchy Descriptor'"),
                RttiOperator::CompleteObjectLocator => Some("`RTTI Complete Object Locator'"),
            },
            OperatorAction::ImmediateString(name) => Some(name),
            OperatorAction::Simple(name) => Some(name),
        }
    }

    /// Reports whether this operator is named after its class.
    pub fn is_constructor_or_destructor(self) -> (yes: bool)
        ensures
            yes == named_after_class(self),
    {
        match self {
            OperatorAction::Constructor | OperatorAction::Destructor => true,
            _ => false,
        }
    }

    /// Reports whether this operator is rendered without a return type.
    pub fn has_no_function_return(self) -> (yes: bool)
        ensures
            yes == (self is Rtti),
    {
        match self {
            OperatorAction::Rtti(_) => true,
            _ => false,
        }
    }
}

impl MethodKind {
    /// What a one-letter method code says.
    pub fn decode(accmem: u8) -> (kind: Self)
        ensures
            kind == method_kind(accmem as char),
    {
        let access = match accmem as char {
            'A'..='H' => "private: ",
            'I'..='P' => "protected: ",
            'Q'..='X' => "public: ",
            _ => "",
        };
        let (member_type, has_this, thunk) = match accmem as char {
            'C' | 'D' | 'K' | 'L' | 'S' | 'T' => ("static ", false, None),
            'E' | 'F' | 'M' | 'N' | 'U' | 'V' => ("virtual ", true, None),
            'G' | 'H' | 'O' | 'P' | 'W' | 'X' => ("virtual ", true, Some(ThunkKind::Adjustor)),
            'Y' | 'Z' => ("", false, None),
            _ => ("", true, None),
        };
        MethodKind { access, member_type, has_this, has_return: true, has_arguments: true, thunk }
    }

    /// A thunk with the given access.
    pub fn thunk(access: &'static str, thunk: ThunkKind) -> (kind: Self)
        ensures
            kind == thunk_kind(access, thunk),
    {
        let virtual_method = match thunk {
            ThunkKind::Vcall => false,
            _ => true,
        };
        MethodKind {
            access,
            member_type: if virtual_method {
                "virtual "
            } else {
                ""
            },
            has_this: virtual_method,
            has_return: virtual_method,
            has_arguments: virtual_method,
            thunk: Some(thunk),
        }
    }
}

/// The calling convention of a code.
pub fn decode_calling_convention(byte: u8, flags: u16) -> (r: Result<
    CallingConvention,
    ParseFailure,
>)
    ensures
        r == convention(byte, flags),
{
    if flags & (UNDNAME_NO_MS_KEYWORDS | UNDNAME_NO_ALLOCATION_LANGUAGE) != 0 {
        return Ok(CallingConvention { calling_convention: None, exported: None });
    }
    let no_leading_underscores = flags & UNDNAME_NO_LEADING_UNDERSCORES != 0;
    let calling_convention = match byte as char {
        'A' | 'B' => Some(
            if no_leading_underscores {
                "cdecl"
            } else {
                "__cdecl"
            },
        ),
        'C' | 'D' => Some(
            if no_leading_underscores {
                "pascal"
            } else {
                "__pascal"
            },
        ),
        'E' | 'F' => Some(
            if no_leading_underscores {
                "thiscall"
            } else {
                "__thiscall"
            },
        ),
        'G' | 'H' => Some(
            if no_leading_underscores {
                "stdcall"
            } else {
                "__stdcall"
            },
        ),
        'I' | 'J' => Some(
            if no_leading_underscores {
                "fastcall"
            } else {
                "__fastcall"
            },
        ),
        'K' | 'L' => None,
        'M' => Some(
            if no_leading_underscores {
                "clrcall"
            } else {
                "__clrcall"
            },
        ),
        _ => return Err(ParseFailure::InvalidCallingConvention { found: byte }),
    };
    let exported = if (byte - 'A' as u8) % 2 == 1 {
        Some(
            if no_leading_underscores {
                "dll_export "
            } else {
                "__dll_export "
            },
        )
    } else {
        None
    };
    Ok(CallingConvention { calling_convention, exported })
}

} // verus!
