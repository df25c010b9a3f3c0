use vstd::prelude::*;

use crate::ast::{FunctionName, PresetCharSetName};
use crate::anre::printer::{function_name_text, preset_charset_text};
use crate::text::string_equals;

verus! {

/// The preset character set that a name denotes, if any.
pub open spec fn preset_charset_of(s: Seq<char>) -> Option<PresetCharSetName> {
    if s == "char_word"@ {
        Some(PresetCharSetName::CharWord)
    } else if s == "char_not_word"@ {
        Some(PresetCharSetName::CharNotWord)
    } else if s == "char_digit"@ {
        Some(PresetCharSetName::CharDigit)
    } else if s == "char_not_digit"@ {
        Some(PresetCharSetName::CharNotDigit)
    } else if s == "char_space"@ {
        Some(PresetCharSetName::CharSpace)
    } else if s == "char_not_space"@ {
        Some(PresetCharSetName::CharNotSpace)
    } else {
        None
    }
}

/// The function that a name denotes, if any.
pub open spec fn function_name_of(s: Seq<char>) -> Option<FunctionName> {
    if s == "optional"@ {
        Some(FunctionName::Optional)
    } else if s == "one_or_more"@ {
        Some(FunctionName::OneOrMore)
    } else if s == "zero_or_more"@ {
        Some(FunctionName::ZeroOrMore)
    } else if s == "repeat"@ {
        Some(FunctionName::Repeat)
    } else if s == "repeat_range"@ {
        Some(FunctionName::RepeatRange)
    } else if s == "repeat_from"@ {
        Some(FunctionName::RepeatFrom)
    } else if s == "lazy_optional"@ {
        Some(FunctionName::LazyOptional)
    } else if s == "lazy_one_or_more"@ {
        Some(FunctionName::LazyOneOrMore)
    } else if s == "lazy_zero_or_more"@ {
        Some(FunctionName::LazyZeroOrMore)
    } else if s == "lazy_repeat_range"@ {
        Some(FunctionName::LazyRepeatRange)
    } else if s == "lazy_repeat_from"@ {
        Some(FunctionName::LazyRepeatFrom)
    } else if s == "is_start"@ {
        Some(FunctionName::IsStart)
    } else if s == "is_end"@ {
        Some(FunctionName::IsEnd)
    } else if s == "is_bound"@ {
        Some(FunctionName::IsBound)
    } else if s == "is_not_bound"@ {
        Some(FunctionName::IsNotBound)
    } else if s == "is_before"@ {
        Some(FunctionName::IsBefore)
    } else if s == "is_after"@ {
        Some(FunctionName::IsAfter)
    } else if s == "is_not_before"@ {
        Some(FunctionName::IsNotBefore)
    } else if s == "is_not_after"@ {
        Some(FunctionName::IsNotAfter)
    } else if s == "index"@ {
        Some(FunctionName::Index)
    } else if s == "name"@ {
        Some(FunctionName::Name)
    } else {
        None
    }
}

/// Reads the name of a preset character set.
pub fn preset_charset_name_from_str(name: &str) -> (r: Option<PresetCharSetName>)
    ensures
        r == preset_charset_of(name@),
{
    if string_equals(name, "char_word") {
        Some(PresetCharSetName::CharWord)
    } else if string_equals(name, "char_not_word") {
        Some(PresetCharSetName::CharNotWord)
    } else if string_equals(name, "char_digit") {
        Some(PresetCharSetName::CharDigit)
    } else if string_equals(name, "char_not_digit") {
        Some(PresetCharSetName::CharNotDigit)
    } else if string_equals(name, "char_space") {
        Some(PresetCharSetName::CharSpace)
    } else if string_equals(name, "char_not_space") {
        Some(PresetCharSetName::CharNotSpace)
    } else {
        None
    }
}

/// Reads the name of a function.
pub fn function_name_from_str(name: &str) -> (r: Option<FunctionName>)
    ensures
        r == function_name_of(name@),
{
    if string_equals(name, "optional") {
        Some(FunctionName::Optional)
    } else if string_equals(name, "one_or_more") {
        Some(FunctionName::OneOrMore)
    } else if string_equals(name, "zero_or_more") {
        Some(FunctionName::ZeroOrMore)
    } else if string_equals(name, "repeat") {
        Some(FunctionName::Repeat)
    } else if string_equals(name, "repeat_range") {
        Some(FunctionName::RepeatRange)
    } else if string_equals(name, "repeat_from") {
        Some(FunctionName::RepeatFrom)
    } else if string_equals(name, "lazy_optional") {
        Some(FunctionName::LazyOptional)
    } else if string_equals(name, "lazy_one_or_more") {
        Some(FunctionName::LazyOneOrMore)
    } else if string_equals(name, "lazy_zero_or_more") {
        Some(FunctionName::LazyZeroOrMore)
    } else if string_equals(name, "lazy_repeat_range") {
        Some(FunctionName::LazyRepeatRange)
    } else if string_equals(name, "lazy_repeat_from") {
        Some(FunctionName::LazyRepeatFrom)
    } else if string_equals(name, "is_start") {
        Some(FunctionName::IsStart)
    } else if string_equals(name, "is_end") {
        Some(FunctionName::IsEnd)
    } else if string_equals(name, "is_bound") {
        Some(FunctionName::IsBound)
    } else if string_equals(name, "is_not_bound") {
        Some(FunctionName::IsNotBound)
    } else if string_equals(name, "is_before") {
        Some(FunctionName::IsBefore)
    } else if string_equals(name, "is_after") {
        Some(FunctionName::IsAfter)
    } else if string_equals(name, "is_not_before") {
        Some(FunctionName::IsNotBefore)
    } else if string_equals(name, "is_not_after") {
        Some(FunctionName::IsNotAfter)
    } else if string_equals(name, "index") {
        Some(FunctionName::Index)
    } else if string_equals(name, "name") {
        Some(FunctionName::Name)
    } else {
        None
    }
}

/// Reading back the name that the printer writes for a function gives the
/// function, for every function but the lazy exact repetition, which the
/// notation writes as `{n}?` and has no name for.
pub proof fn function_names_read_back(name: FunctionName)
    requires
        name != FunctionName::LazyRepeat,
    ensures
        function_name_of(function_name_text(name)) == Some(name),
{
    match name {
        FunctionName::Optional => {
            reveal_strlit("optional");
        },
        FunctionName::OneOrMore => {
            reveal_strlit("one_or_more");
            reveal_strlit("optional");
            assert("one_or_more"@.len() != "optional"@.len());
        },
        FunctionName::ZeroOrMore => {
            reveal_strlit("zero_or_more");
            reveal_strlit("optional");
            assert("zero_or_more"@.len() != "optional"@.len());
            reveal_strlit("one_or_more");
            assert("zero_or_more"@.len() != "one_or_more"@.len());
        },
        FunctionName::Repeat => {
            reveal_strlit("repeat");
            reveal_strlit("optional");
            assert("repeat"@.len() != "optional"@.len());
            reveal_strlit("one_or_more");
            assert("repeat"@.len() != "one_or_more"@.len());
            reveal_strlit("zero_or_more");
            assert("repeat"@.len() != "zero_or_more"@.len());
        },
        FunctionName::RepeatRange => {
            reveal_strlit("repeat_range");
            reveal_strlit("optional");
            assert("repeat_range"@.len() != "optional"@.len());
            reveal_strlit("one_or_more");
            assert("repeat_range"@.len() != "one_or_more"@.len());
            reveal_strlit("zero_or_more");
            assert("repeat_range"@[0] != "zero_or_more"@[0]);
            reveal_strlit("repeat");
            assert("repeat_range"@.len() != "repeat"@.len());
        },
        FunctionName::RepeatFrom => {
            reveal_strlit("repeat_from");
            reveal_strlit("optional");
            assert("repeat_from"@.len() != "optional"@.len());
            reveal_strlit("one_or_more");
            assert("repeat_from"@[0] != "one_or_more"@[0]);
            reveal_strlit("zero_or_more");
            assert("repeat_from"@.len() != "zero_or_more"@.len());
            reveal_strlit("repeat");
            assert("repeat_from"@.len() != "repeat"@.len());
            reveal_strlit("repeat_range");
            assert("repeat_from"@.len() != "repeat_range"@.len());
        },
        FunctionName::LazyOptional => {
            reveal_strlit("lazy_optional");
            reveal_strlit("optional");
            assert("lazy_optional"@.len() != "optional"@.len());
            reveal_strlit("one_or_more");
            assert("lazy_optional"@.len() != "one_or_more"@.len());
            reveal_strlit("zero_or_more");
            assert("lazy_optional"@.len() != "zero_or_more"@.len());
            reveal_strlit("repeat");
            assert("lazy_optional"@.len() != "repeat"@.len());
            reveal_strlit("repeat_range");
            assert("lazy_optional"@.len() != "repeat_range"@.len());
            reveal_strlit("repeat_from");
            assert("lazy_optional"@.len() != "repeat_from"@.len());
        },
        FunctionName::LazyOneOrMore => {
            reveal_strlit("lazy_one_or_more");
            reveal_strlit("optional");
            assert("lazy_one_or_more"@.len() != "optional"@.len());
            reveal_strlit("one_or_more");
            assert("lazy_one_or_more"@.len() != "one_or_more"@.len());
            reveal_strlit("zero_or_more");
            assert("lazy_one_or_more"@.len() != "zero_or_more"@.len());
            reveal_strlit("repeat");
            assert("lazy_one_or_more"@.len() != "repeat"@.len());
            reveal_strlit("repeat_range");
            assert("lazy_one_or_more"@.len() != "repeat_range"@.len());
            reveal_strlit("repeat_from");
            assert("lazy_one_or_more"@.len() != "repeat_from"@.len());
            reveal_strlit("lazy_optional");
            assert("lazy_one_or_more"@.len() != "lazy_optional"@.len());
        },
        FunctionName::LazyZeroOrMore => {
            reveal_strlit("lazy_zero_or_more");
            reveal_strlit("optional");
            assert("lazy_zero_or_more"@.len() != "optional"@.len());
            reveal_strlit("one_or_more");
            assert("lazy_zero_or_more"@.len() != "one_or_more"@.len());
            reveal_strlit("zero_or_more");
            assert("lazy_zero_or_more"@.len() != "zero_or_more"@.len());
            reveal_strlit("repeat");
            assert("lazy_zero_or_more"@.len() != "repeat"@.len());
            reveal_strlit("repeat_range");
            assert("lazy_zero_or_more"@.len() != "repeat_range"@.len());
            reveal_strlit("repeat_from");
            assert("lazy_zero_or_more"@.len() != "repeat_from"@.len());
            reveal_strlit("lazy_optional");
            assert("lazy_zero_or_more"@.len() != "lazy_optional"@.len());
            reveal_strlit("lazy_one_or_more");
            assert("lazy_zero_or_more"@.len() != "lazy_one_or_more"@.len());
        },
        FunctionName::LazyRepeatRange => {
            reveal_strlit("lazy_repeat_range");
            reveal_strlit("optional");
            assert("lazy_repeat_range"@.len() != "optional"@.len());
            reveal_strlit("one_or_more");
            assert("lazy_repeat_range"@.len() != "one_or_more"@.len());
            reveal_strlit("zero_or_more");
            assert("lazy_repeat_range"@.len() != "zero_or_more"@.len());
            reveal_strlit("repeat");
            assert("lazy_repeat_range"@.len() != "repeat"@.len());
            reveal_strlit("repeat_range");
            assert("lazy_repeat_range"@.len() != "repeat_range"@.len());
            reveal_strlit("repeat_from");
            assert("lazy_repeat_range"@.len() != "repeat_from"@.len());
            reveal_strlit("lazy_optional");
            assert("lazy_repeat_range"@.len() != "lazy_optional"@.len());
            reveal_strlit("lazy_one_or_more");
            assert("lazy_repeat_range"@.len() != "lazy_one_or_more"@.len());
            reveal_strlit("lazy_zero_or_more");
            assert("lazy_repeat_range"@[5] != "lazy_zero_or_more"@[5]);
        },
        FunctionName::LazyRepeatFrom => {
            reveal_strlit("lazy_repeat_from");
            reveal_strlit("optional");
            assert("lazy_repeat_from"@.len() != "optional"@.len());
            reveal_strlit("one_or_more");
            assert("lazy_repeat_from"@.len() != "one_or_more"@.len());
            reveal_strlit("zero_or_more");
            assert("lazy_repeat_from"@.len() != "zero_or_more"@.len());
            reveal_strlit("repeat");
            assert("lazy_repeat_from"@.len() != "repeat"@.len());
            reveal_strlit("repeat_range");
            assert("lazy_repeat_from"@.len() != "repeat_range"@.len());
            reveal_strlit("repeat_from");
            assert("lazy_repeat_from"@.len() != "repeat_from"@.len());
            reveal_strlit("lazy_optional");
            assert("lazy_repeat_from"@.len() != "lazy_optional"@.len());
            reveal_strlit("lazy_one_or_more");
            assert("lazy_repeat_from"@[5] != "lazy_one_or_more"@[5]);
            reveal_strlit("lazy_zero_or_more");
            assert("lazy_repeat_from"@.len() != "lazy_zero_or_more"@.len());
            reveal_strlit("lazy_repeat_range");
            assert("lazy_repeat_from"@.len() != "lazy_repeat_range"@.len());
        },
        FunctionName::IsStart => {
            reveal_strlit("is_start");
            reveal_strlit("optional");
            assert("is_start"@[0] != "optional"@[0]);
            reveal_strlit("one_or_more");
            assert("is_start"@.len() != "one_or_more"@.len());
            reveal_strlit("zero_or_more");
            assert("is_start"@.len() != "zero_or_more"@.len());
            reveal_strlit("repeat");
            assert("is_start"@.len() != "repeat"@.len());
            reveal_strlit("repeat_range");
            assert("is_start"@.len() != "repeat_range"@.len());
            reveal_strlit("repeat_from");
            assert("is_start"@.len() != "repeat_from"@.len());
            reveal_strlit("lazy_optional");
            assert("is_start"@.len() != "lazy_optional"@.len());
            reveal_strlit("lazy_one_or_more");
            assert("is_start"@.len() != "lazy_one_or_more"@.len());
            reveal_strlit("lazy_zero_or_more");
            assert("is_start"@.len() != "lazy_zero_or_more"@.len());
            reveal_strlit("lazy_repeat_range");
            assert("is_start"@.len() != "lazy_repeat_range"@.len());
            reveal_strlit("lazy_repeat_from");
            assert("is_start"@.len() != "lazy_repeat_from"@.len());
        },
        FunctionName::IsEnd => {
            reveal_strlit("is_end");
            reveal_strlit("optional");
            assert("is_end"@.len() != "optional"@.len());
            reveal_strlit("one_or_more");
            assert("is_end"@.len() != "one_or_more"@.len());
            reveal_strlit("zero_or_more");
            assert("is_end"@.len() != "zero_or_more"@.len());
            reveal_strlit("repeat");
            assert("is_end"@[0] != "repeat"@[0]);
            reveal_strlit("repeat_range");
            assert("is_end"@.len() != "repeat_range"@.len());
            reveal_strlit("repeat_from");
            assert("is_end"@.len() != "repeat_from"@.len());
            reveal_strlit("lazy_optional");
            assert("is_end"@.len() != "lazy_optional"@.len());
            reveal_strlit("lazy_one_or_more");
            assert("is_end"@.len() != "lazy_one_or_more"@.len());
            reveal_strlit("lazy_zero_or_more");
            assert("is_end"@.len() != "lazy_zero_or_more"@.len());
            reveal_strlit("lazy_repeat_range");
            assert("is_end"@.len() != "lazy_repeat_range"@.len());
            reveal_strlit("lazy_repeat_from");
            assert("is_end"@.len() != "lazy_repeat_from"@.len());
            reveal_strlit("is_start");
            assert("is_end"@.len() != "is_start"@.len());
        },
        FunctionName::IsBound => {
            reveal_strlit("is_bound");
            reveal_strlit("optional");
            assert("is_bound"@[0] != "optional"@[0]);
            reveal_strlit("one_or_more");
            assert("is_bound"@.len() != "one_or_more"@.len());
            reveal_strlit("zero_or_more");
            assert("is_bound"@.len() != "zero_or_more"@.len());
            reveal_strlit("repeat");
            assert("is_bound"@.len() != "repeat"@.len());
            reveal_strlit("repeat_range");
            assert("is_bound"@.len() != "repeat_range"@.len());
            reveal_strlit("repeat_from");
            assert("is_bound"@.len() != "repeat_from"@.len());
            reveal_strlit("lazy_optional");
            assert("is_bound"@.len() != "lazy_optional"@.len());
            reveal_strlit("lazy_one_or_more");
            assert("is_bound"@.len() != "lazy_one_or_more"@.len());
            reveal_strlit("lazy_zero_or_more");
            assert("is_bound"@.len() != "lazy_zero_or_more"@.len());
            reveal_strlit("lazy_repeat_range");
            assert("is_bound"@.len() != "lazy_repeat_range"@.len());
            reveal_strlit("lazy_repeat_from");
            assert("is_bound"@.len() != "lazy_repeat_from"@.len());
            reveal_strlit("is_start");
            assert("is_bound"@[3] != "is_start"@[3]);
            reveal_strlit("is_end");
            assert("is_bound"@.len() != "is_end"@.len());
        },
        FunctionName::IsNotBound => {
            reveal_strlit("is_not_bound");
            reveal_strlit("optional");
            assert("is_not_bound"@.len() != "optional"@.len());
            reveal_strlit("one_or_more");
            assert("is_not_bound"@.len() != "one_or_more"@.len());
            reveal_strlit("zero_or_more");
            assert("is_not_bound"@[0] != "zero_or_more"@[0]);
            reveal_strlit("repeat");
            assert("is_not_bound"@.len() != "repeat"@.len());
            reveal_strlit("repeat_range");
            assert("is_not_bound"@[0] != "repeat_range"@[0]);
            reveal_strlit("repeat_from");
            assert("is_not_bound"@.len() != "repeat_from"@.len());
            reveal_strlit("lazy_optional");
            assert("is_not_bound"@.len() != "lazy_optional"@.len());
            reveal_strlit("lazy_one_or_more");
            assert("is_not_bound"@.len() != "lazy_one_or_more"@.len());
            reveal_strlit("lazy_zero_or_more");
            assert("is_not_bound"@.len() != "lazy_zero_or_more"@.len());
            reveal_strlit("lazy_repeat_range");
            assert("is_not_bound"@.len() != "lazy_repeat_range"@.len());
            reveal_strlit("lazy_repeat_from");
            assert("is_not_bound"@.len() != "lazy_repeat_from"@.len());
            reveal_strlit("is_start");
            assert("is_not_bound"@.len() != "is_start"@.len());
            reveal_strlit("is_end");
            assert("is_not_bound"@.len() != "is_end"@.len());
            reveal_strlit("is_bound");
            assert("is_not_bound"@.len() != "is_bound"@.len());
        },
        FunctionName::IsBefore => {
            reveal_strlit("is_before");
            reveal_strlit("optional");
            assert("is_before"@.len() != "optional"@.len());
            reveal_strlit("one_or_more");
            assert("is_before"@.len() != "one_or_more"@.len());
            reveal_strlit("zero_or_more");
            assert("is_before"@.len() != "zero_or_more"@.len());
            reveal_strlit("repeat");
            assert("is_before"@.len() != "repeat"@.len());
            reveal_strlit("repeat_range");
            assert("is_before"@.len() != "repeat_range"@.len());
            reveal_strlit("repeat_from");
            assert("is_before"@.len() != "repeat_from"@.len());
            reveal_strlit("lazy_optional");
            assert("is_before"@.len() != "lazy_optional"@.len());
            reveal_strlit("lazy_one_or_more");
            assert("is_before"@.len() != "lazy_one_or_more"@.len());
            reveal_strlit("lazy_zero_or_more");
            assert("is_before"@.len() != "lazy_zero_or_more"@.len());
            reveal_strlit("lazy_repeat_range");
            assert("is_before"@.len() != "lazy_repeat_range"@.len());
            reveal_strlit("lazy_repeat_from");
            assert("is_before"@.len() != "lazy_repeat_from"@.len());
            reveal_strlit("is_start");
            assert("is_before"@.len() != "is_start"@.len());
            reveal_strlit("is_end");
            assert("is_before"@.len() != "is_end"@.len());
            reveal_strlit("is_bound");
            assert("is_before"@.len() != "is_bound"@.len());
            reveal_strlit("is_not_bound");
            assert("is_before"@.len() != "is_not_bound"@.len());
        },
        FunctionName::IsAfter => {
            reveal_strlit("is_after");
            reveal_strlit("optional");
            assert("is_after"@[0] != "optional"@[0]);
            reveal_strlit("one_or_more");
            assert("is_after"@.len() != "one_or_more"@.len());
            reveal_strlit("zero_or_more");
            assert("is_after"@.len() != "zero_or_more"@.len());
            reveal_strlit("repeat");
            assert("is_after"@.len() != "repeat"@.len());
            reveal_strlit("repeat_range");
            assert("is_after"@.len() != "repeat_range"@.len());
            reveal_strlit("repeat_from");
            assert("is_after"@.len() != "repeat_from"@.len());
            reveal_strlit("lazy_optional");
            assert("is_after"@.len() != "lazy_optional"@.len());
            reveal_strlit("lazy_one_or_more");
            assert("is_after"@.len() != "lazy_one_or_more"@.len());
            reveal_strlit("lazy_zero_or_more");
            assert("is_after"@.len() != "lazy_zero_or_more"@.len());
            reveal_strlit("lazy_repeat_range");
            assert("is_after"@.len() != "lazy_repeat_range"@.len());
            reveal_strlit("lazy_repeat_from");
            assert("is_after"@.len() != "lazy_repeat_from"@.len());
            reveal_strlit("is_start");
            assert("is_after"@[3] != "is_start"@[3]);
            reveal_strlit("is_end");
            assert("is_after"@.len() != "is_end"@.len());
            reveal_strlit("is_bound");
            assert("is_after"@[3] != "is_bound"@[3]);
            reveal_strlit("is_not_bound");
            assert("is_after"@.len() != "is_not_bound"@.len());
            reveal_strlit("is_before");
            assert("is_after"@.len() != "is_before"@.len());
        },
        FunctionName::IsNotBefore => {
            reveal_strlit("is_not_before");
            reveal_strlit("optional");
            assert("is_not_before"@.len() != "optional"@.len());
            reveal_strlit("one_or_more");
            assert("is_not_before"@.len() != "one_or_more"@.len());
            reveal_strlit("zero_or_more");
            assert("is_not_before"@.len() != "zero_or_more"@.len());
            reveal_strlit("repeat");
            assert("is_not_before"@.len() != "repeat"@.len());
            reveal_strlit("repeat_range");
            assert("is_not_before"@.len() != "repeat_range"@.len());
            reveal_strlit("repeat_from");
            assert("is_not_before"@.len() != "repeat_from"@.len());
            reveal_strlit("lazy_optional");
            assert("is_not_before"@[0] != "lazy_optional"@[0]);
            reveal_strlit("lazy_one_or_more");
            assert("is_not_before"@.len() != "lazy_one_or_more"@.len());
            reveal_strlit("lazy_zero_or_more");
            assert("is_not_before"@.len() != "lazy_zero_or_more"@.len());
            reveal_strlit("lazy_repeat_range");
            assert("is_not_before"@.len() != "lazy_repeat_range"@.len());
            reveal_strlit("lazy_repeat_from");
            assert("is_not_before"@.len() != "lazy_repeat_from"@.len());
            reveal_strlit("is_start");
            assert("is_not_before"@.len() != "is_start"@.len());
            reveal_strlit("is_end");
            assert("is_not_before"@.len() != "is_end"@.len());
            reveal_strlit("is_bound");
            assert("is_not_before"@.len() != "is_bound"@.len());
            reveal_strlit("is_not_bound");
            assert("is_not_before"@.len() != "is_not_bound"@.len());
            reveal_strlit("is_before");
            assert("is_not_before"@.len() != "is_before"@.len());
            reveal_strlit("is_after");
            assert("is_not_before"@.len() != "is_after"@.len());
        },
        FunctionName::IsNotAfter => {
            reveal_strlit("is_not_after");
            reveal_strlit("optional");
            assert("is_not_after"@.len() != "optional"@.len());
            reveal_strlit("one_or_more");
            assert("is_not_after"@.len() != "one_or_more"@.len());
            reveal_strlit("zero_or_more");
            assert("is_not_after"@[0] != "zero_or_more"@[0]);
            reveal_strlit("repeat");
            assert("is_not_after"@.len() != "repeat"@.len());
            reveal_strlit("repeat_range");
            assert("is_not_after"@[0] != "repeat_range"@[0]);
            reveal_strlit("repeat_from");
            assert("is_not_after"@.len() != "repeat_from"@.len());
            reveal_strlit("lazy_optional");
            assert("is_not_after"@.len() != "lazy_optional"@.len());
            reveal_strlit("lazy_one_or_more");
            assert("is_not_after"@.len() != "lazy_one_or_more"@.len());
            reveal_strlit("lazy_zero_or_more");
            assert("is_not_after"@.len() != "lazy_zero_or_more"@.len());
            reveal_strlit("lazy_repeat_range");
            assert("is_not_after"@.len() != "lazy_repeat_range"@.len());
            reveal_strlit("lazy_repeat_from");
            assert("is_not_after"@.len() != "lazy_repeat_from"@.len());
            reveal_strlit("is_start");
            assert("is_not_after"@.len() != "is_start"@.len());
            reveal_strlit("is_end");
            assert("is_not_after"@.len() != "is_end"@.len());
            reveal_strlit("is_bound");
            assert("is_not_after"@.len() != "is_bound"@.len());
            reveal_strlit("is_not_bound");
            assert("is_not_after"@[7] != "is_not_bound"@[7]);
            reveal_strlit("is_before");
            assert("is_not_after"@.len() != "is_before"@.len());
            reveal_strlit("is_after");
            assert("is_not_after"@.len() != "is_after"@.len());
            reveal_strlit("is_not_before");
            assert("is_not_after"@.len() != "is_not_before"@.len());
        },
        FunctionName::Index => {
            reveal_strlit("index");
            reveal_strlit("optional");
            assert("index"@.len() != "optional"@.len());
            reveal_strlit("one_or_more");
            assert("index"@.len() != "one_or_more"@.len());
            reveal_strlit("zero_or_more");
            assert("index"@.len() != "zero_or_more"@.len());
            reveal_strlit("repeat");
            assert("index"@.len() != "repeat"@.len());
            reveal_strlit("repeat_range");
            assert("index"@.len() != "repeat_range"@.len());
            reveal_strlit("repeat_from");
            assert("index"@.len() != "repeat_from"@.len());
            reveal_strlit("lazy_optional");
            assert("index"@.len() != "lazy_optional"@.len());
            reveal_strlit("lazy_one_or_more");
            assert("index"@.len() != "lazy_one_or_more"@.len());
            reveal_strlit("lazy_zero_or_more");
            assert("index"@.len() != "lazy_zero_or_more"@.len());
            reveal_strlit("lazy_repeat_range");
            assert("index"@.len() != "lazy_repeat_range"@.len());
            reveal_strlit("lazy_repeat_from");
            assert("index"@.len() != "lazy_repeat_from"@.len());
            reveal_strlit("is_start");
            assert("index"@.len() != "is_start"@.len());
            reveal_strlit("is_end");
            assert("index"@.len() != "is_end"@.len());
            reveal_strlit("is_bound");
            assert("index"@.len() != "is_bound"@.len());
            reveal_strlit("is_not_bound");
            assert("index"@.len() != "is_not_bound"@.len());
            reveal_strlit("is_before");
            assert("index"@.len() != "is_before"@.len());
            reveal_strlit("is_after");
            assert("index"@.len() != "is_after"@.len());
            reveal_strlit("is_not_before");
            assert("index"@.len() != "is_not_before"@.len());
            reveal_strlit("is_not_after");
            assert("index"@.len() != "is_not_after"@.len());
        },
        FunctionName::Name => {
            reveal_strlit("name");
            reveal_strlit("optional");
            assert("name"@.len() != "optional"@.len());
            reveal_strlit("one_or_more");
            assert("name"@.len() != "one_or_more"@.len());
            reveal_strlit("zero_or_more");
            assert("name"@.len() != "zero_or_more"@.len());
            reveal_strlit("repeat");
            assert("name"@.len() != "repeat"@.len());
            reveal_strlit("repeat_range");
            assert("name"@.len() != "repeat_range"@.len());
            reveal_strlit("repeat_from");
            assert("name"@.len() != "repeat_from"@.len());
            reveal_strlit("lazy_optional");
            assert("name"@.len() != "lazy_optional"@.len());
            reveal_strlit("lazy_one_or_more");
            assert("name"@.len() != "lazy_one_or_more"@.len());
            reveal_strlit("lazy_zero_or_more");
            assert("name"@.len() != "lazy_zero_or_more"@.len());
            reveal_strlit("lazy_repeat_range");
            assert("name"@.len() != "lazy_repeat_range"@.len());
            reveal_strlit("lazy_repeat_from");
            assert("name"@.len() != "lazy_repeat_from"@.len());
            reveal_strlit("is_start");
            assert("name"@.len() != "is_start"@.len());
            reveal_strlit("is_end");
            assert("name"@.len() != "is_end"@.len());
            reveal_strlit("is_bound");
            assert("name"@.len() != "is_bound"@.len());
            reveal_strlit("is_not_bound");
            assert("name"@.len() != "is_not_bound"@.len());
            reveal_strlit("is_before");
            assert("name"@.len() != "is_before"@.len());
            reveal_strlit("is_after");
            assert("name"@.len() != "is_after"@.len());
            reveal_strlit("is_not_before");
            assert("name"@.len() != "is_not_before"@.len());
            reveal_strlit("is_not_after");
            assert("name"@.len() != "is_not_after"@.len());
            reveal_strlit("index");
            assert("name"@.len() != "index"@.len());
        },
        FunctionName::LazyRepeat => {},
    }
}

/// Reading back the name that the printer writes for a preset character set
/// gives the set.
pub proof fn preset_names_read_back(name: PresetCharSetName)
    ensures
        preset_charset_of(preset_charset_text(name)) == Some(name),
{
    match name {
        PresetCharSetName::CharWord => {
            reveal_strlit("char_word");
        },
        PresetCharSetName::CharNotWord => {
            reveal_strlit("char_not_word");
            reveal_strlit("char_word");
            assert("char_not_word"@.len() != "char_word"@.len());
        },
        PresetCharSetName::CharDigit => {
            reveal_strlit("char_digit");
            reveal_strlit("char_word");
            assert("char_digit"@.len() != "char_word"@.len());
            reveal_strlit("char_not_word");
            assert("char_digit"@.len() != "char_not_word"@.len());
        },
        PresetCharSetName::CharNotDigit => {
            reveal_strlit("char_not_digit");
            reveal_strlit("char_word");
            assert("char_not_digit"@.len() != "char_word"@.len());
            reveal_strlit("char_not_word");
            assert("char_not_digit"@.len() != "char_not_word"@.len());
            reveal_strlit("char_digit");
            assert("char_not_digit"@.len() != "char_digit"@.len());
        },
        PresetCharSetName::CharSpace => {
            reveal_strlit("char_space");
            reveal_strlit("char_word");
            assert("char_space"@.len() != "char_word"@.len());
            reveal_strlit("char_not_word");
            assert("char_space"@.len() != "char_not_word"@.len());
            reveal_strlit("char_digit");
            assert("char_space"@[5] != "char_digit"@[5]);
            reveal_strlit("char_not_digit");
            assert("char_space"@.len() != "char_not_digit"@.len());
        },
        PresetCharSetName::CharNotSpace => {
            reveal_strlit("char_not_space");
            reveal_strlit("char_word");
            assert("char_not_space"@.len() != "char_word"@.len());
            reveal_strlit("char_not_word");
            assert("char_not_space"@.len() != "char_not_word"@.len());
            reveal_strlit("char_digit");
            assert("char_not_space"@.len() != "char_digit"@.len());
            reveal_strlit("char_not_digit");
            assert("char_not_space"@[9] != "char_not_digit"@[9]);
            reveal_strlit("char_space");
            assert("char_not_space"@.len() != "char_space"@.len());
        },
    }
}

} // verus!
