use vstd::prelude::*;

use crate::anre::printer::{escape_char_text, write_escaped_char};
use crate::charclass::{char_from_u32, is_scalar_value};
use crate::text::{chars_of, decimal_chars, push_char, push_decimal, push_str};

verus! {

/// A step of the matching machine: a condition on the text at the current
/// position, or an action on the state of the match. When it holds, the
/// machine moves to the target node of the transition.
#[derive(Debug)]
pub enum Transition {
    /// Moves without condition.
    Jump(JumpTransition),
    /// Matches one given character.
    Char(CharTransition),
    /// Matches any character but line feed and carriage return.
    AnyChar(AnyCharTransition),
    /// Matches a given string.
    String(StringTransition),
    /// Matches one character of a set, or of its complement.
    CharSet(CharSetTransition),
    /// Matches the text that a capture group captured.
    BackReference(BackReferenceTransition),
    /// Holds at the start or at the end of the text.
    LineBoundaryAssertion(LineBoundaryAssertionTransition),
    /// Holds at a word boundary, or anywhere else.
    WordBoundaryAssertion(WordBoundaryAssertionTransition),
    /// Starts a capture group.
    CaptureStart(CaptureStartTransition),
    /// Ends a capture group.
    CaptureEnd(CaptureEndTransition),
    /// Opens a new repetition counter, set to zero.
    CounterReset(CounterResetTransition),
    /// Counts one more repetition.
    CounterIncrement(CounterIncrementTransition),
    /// Leaves a repetition once enough repetitions were counted.
    RepetitionForward(RepetitionForwardTransition),
    /// Repeats once more while fewer than the most repetitions were counted.
    RepetitionBack(RepetitionBackTransition),
    /// Holds when another line of the route matches from here.
    LookAheadAssertion(LookAheadAssertionTransition),
    /// Holds when another line of the route matches up to here.
    LookBehindAssertion(LookBehindAssertionTransition),
}

#[derive(Debug)]
pub struct JumpTransition;

#[derive(Debug)]
pub struct CharTransition {
    /// The code point of the character.
    pub codepoint: u32,
    /// The length of its UTF-8 encoding.
    pub byte_length: usize,
}

#[derive(Debug)]
pub struct AnyCharTransition;

#[derive(Debug)]
pub struct StringTransition {
    /// The code points of the characters.
    pub codepoints: Vec<u32>,
    /// The length of the UTF-8 encoding of the string.
    pub byte_length: usize,
}

#[derive(Debug)]
pub struct CharSetTransition {
    pub items: Vec<CharSetItem>,
    /// Matches the characters outside the set.
    pub negative: bool,
}

/// A character of a set, or a range of them.
#[derive(Debug, PartialEq, Eq, Clone, Copy, Structural)]
pub enum CharSetItem {
    Char(u32),
    Range(CharRange),
}

/// The characters from `start` to `end_inclusive`, by code point.
#[derive(Debug, PartialEq, Eq, Clone, Copy, Structural)]
pub struct CharRange {
    pub start: u32,
    pub end_inclusive: u32,
}

#[derive(Debug)]
pub struct BackReferenceTransition {
    pub capture_group_index: usize,
}

#[derive(Debug)]
pub struct LineBoundaryAssertionTransition {
    /// The end of the text rather than its start.
    pub is_end: bool,
}

#[derive(Debug)]
pub struct WordBoundaryAssertionTransition {
    /// Holds where there is no word boundary.
    pub is_negative: bool,
}

#[derive(Debug)]
pub struct CaptureStartTransition {
    pub capture_group_index: usize,
}

#[derive(Debug)]
pub struct CaptureEndTransition {
    pub capture_group_index: usize,
}

#[derive(Debug)]
pub struct CounterResetTransition {
    pub counter_index: usize,
}

#[derive(Debug)]
pub struct CounterIncrementTransition {
    pub counter_index: usize,
}

#[derive(Debug)]
pub struct RepetitionForwardTransition {
    pub repetition_type: RepetitionType,
}

#[derive(Debug)]
pub struct RepetitionBackTransition {
    pub repetition_type: RepetitionType,
}

#[derive(Debug)]
pub struct LookAheadAssertionTransition {
    /// The line of the route to match.
    pub route_index: usize,
    pub is_negative: bool,
}

#[derive(Debug)]
pub struct LookBehindAssertionTransition {
    /// The line of the route to match.
    pub route_index: usize,
    pub is_negative: bool,
    /// The number of characters that the line matches.
    pub match_length_in_char: usize,
}

/// The numbers of repetitions that a repetition allows.
#[derive(Debug, PartialEq, Eq, Clone, Copy, Structural)]
pub enum RepetitionType {
    /// Exactly `n`.
    Repeat(usize),
    /// `m` or more.
    RepeatFrom(usize),
    /// From `m` to `n`.
    RepeatRange(usize, usize),
}

/// The length of the UTF-8 encoding of a character.
pub open spec fn utf8_len(c: char) -> nat {
    if (c as u32) < 0x80 {
        1
    } else if (c as u32) < 0x800 {
        2
    } else if (c as u32) < 0x10000 {
        3
    } else {
        4
    }
}

/// The length of the UTF-8 encoding of a text.
pub open spec fn utf8_len_of(s: Seq<char>) -> nat
    decreases s.len(),
{
    if s.len() == 0 {
        0
    } else {
        utf8_len_of(s.drop_last()) + utf8_len(s.last())
    }
}

/// The length of the UTF-8 encoding of a character.
pub fn char_utf8_len(c: char) -> (n: usize)
    ensures
        n == utf8_len(c),
{
    let v = c as u32;
    if v < 0x80 {
        1
    } else if v < 0x800 {
        2
    } else if v < 0x10000 {
        3
    } else {
        4
    }
}

impl CharTransition {
    pub fn new(c: char) -> (t: CharTransition)
        ensures
            t.codepoint == c as u32,
            t.byte_length == utf8_len(c),
    {
        CharTransition { codepoint: c as u32, byte_length: char_utf8_len(c) }
    }
}

impl StringTransition {
    pub fn new(s: &str) -> (t: StringTransition)
        ensures
            t.codepoints@.len() == s@.len(),
            forall|i: int| 0 <= i < s@.len() ==> t.codepoints@[i] == s@[i] as u32,
            t.byte_length == utf8_len_of(s@),
    {
        let bytes = s.as_bytes();
        let blen = bytes.len();
        proof {
            lemma_utf8_len_of_encoding(s@);
            assert(bytes@.len() == vstd::utf8::encode_utf8(s@).len());
        }
        let cs = chars_of(s);
        let mut codepoints: Vec<u32> = Vec::new();
        let mut byte_length: usize = 0;
        let mut i: usize = 0;
        while i < cs.len()
            invariant
                cs@ == s@,
                i <= cs.len(),
                codepoints@.len() == i,
                forall|k: int| 0 <= k < i ==> codepoints@[k] == s@[k] as u32,
                byte_length == utf8_len_of(s@.take(i as int)),
                utf8_len_of(s@) <= usize::MAX,
            decreases cs.len() - i,
        {
            proof {
                assert(s@.take(i + 1).drop_last() =~= s@.take(i as int));
                lemma_utf8_len_of_prefix(s@, i + 1);
            }
            codepoints.push(cs[i] as u32);
            byte_length = byte_length + char_utf8_len(cs[i]);
            i = i + 1;
        }
        proof {
            assert(s@.take(i as int) =~= s@);
        }
        StringTransition { codepoints, byte_length }
    }
}

/// A prefix of a text takes no more bytes than the text.
pub proof fn lemma_utf8_len_of_prefix(s: Seq<char>, k: int)
    requires
        0 <= k <= s.len(),
    ensures
        utf8_len_of(s.take(k)) <= utf8_len_of(s),
    decreases s.len() - k,
{
    if k < s.len() {
        lemma_utf8_len_of_prefix(s, k + 1);
        assert(s.take(k + 1).drop_last() =~= s.take(k));
    } else {
        assert(s.take(k) =~= s);
    }
}

impl CharSetItem {
    pub fn new_char(character: char) -> (r: CharSetItem)
        ensures
            r == CharSetItem::Char(character as u32),
    {
        CharSetItem::Char(character as u32)
    }

    pub fn new_range(start: char, end_inclusive: char) -> (r: CharSetItem)
        ensures
            r == CharSetItem::Range(
                CharRange { start: start as u32, end_inclusive: end_inclusive as u32 },
            ),
    {
        CharSetItem::Range(CharRange { start: start as u32, end_inclusive: end_inclusive as u32 })
    }
}

/// The items of the preset set of word characters, `[A-Za-z0-9_]`.
pub open spec fn word_items() -> Seq<CharSetItem> {
    seq![
        CharSetItem::Range(CharRange { start: 'A' as u32, end_inclusive: 'Z' as u32 }),
        CharSetItem::Range(CharRange { start: 'a' as u32, end_inclusive: 'z' as u32 }),
        CharSetItem::Range(CharRange { start: '0' as u32, end_inclusive: '9' as u32 }),
        CharSetItem::Char('_' as u32),
    ]
}

/// The items of the preset set of blank characters: space, tab, carriage
/// return and line feed.
pub open spec fn space_items() -> Seq<CharSetItem> {
    seq![
        CharSetItem::Char(' ' as u32),
        CharSetItem::Char('\t' as u32),
        CharSetItem::Char('\r' as u32),
        CharSetItem::Char('\n' as u32),
    ]
}

/// The items of the preset set of decimal digits.
pub open spec fn digit_items() -> Seq<CharSetItem> {
    seq![CharSetItem::Range(CharRange { start: '0' as u32, end_inclusive: '9' as u32 })]
}

impl CharSetTransition {
    pub fn new(items: Vec<CharSetItem>, negative: bool) -> (t: CharSetTransition)
        ensures
            t.items@ == items@,
            t.negative == negative,
    {
        CharSetTransition { items, negative }
    }

    pub fn new_preset_charset_word() -> (t: CharSetTransition)
        ensures
            t.items@ == word_items(),
            !t.negative,
    {
        let mut items: Vec<CharSetItem> = Vec::new();
        add_preset_word(&mut items);
        CharSetTransition::new(items, false)
    }

    pub fn new_preset_charset_not_word() -> (t: CharSetTransition)
        ensures
            t.items@ == word_items(),
            t.negative,
    {
        let mut items: Vec<CharSetItem> = Vec::new();
        add_preset_word(&mut items);
        CharSetTransition::new(items, true)
    }

    pub fn new_preset_charset_space() -> (t: CharSetTransition)
        ensures
            t.items@ == space_items(),
            !t.negative,
    {
        let mut items: Vec<CharSetItem> = Vec::new();
        add_preset_space(&mut items);
        CharSetTransition::new(items, false)
    }

    pub fn new_preset_charset_not_space() -> (t: CharSetTransition)
        ensures
            t.items@ == space_items(),
            t.negative,
    {
        let mut items: Vec<CharSetItem> = Vec::new();
        add_preset_space(&mut items);
        CharSetTransition::new(items, true)
    }

    pub fn new_preset_charset_digit() -> (t: CharSetTransition)
        ensures
            t.items@ == digit_items(),
            !t.negative,
    {
        let mut items: Vec<CharSetItem> = Vec::new();
        add_preset_digit(&mut items);
        CharSetTransition::new(items, false)
    }

    pub fn new_preset_charset_not_digit() -> (t: CharSetTransition)
        ensures
            t.items@ == digit_items(),
            t.negative,
    {
        let mut items: Vec<CharSetItem> = Vec::new();
        add_preset_digit(&mut items);
        CharSetTransition::new(items, true)
    }
}

pub fn add_char(items: &mut Vec<CharSetItem>, c: char)
    ensures
        final(items)@ == old(items)@.push(CharSetItem::Char(c as u32)),
{
    items.push(CharSetItem::new_char(c));
}

pub fn add_range(items: &mut Vec<CharSetItem>, start: char, end_inclusive: char)
    ensures
        final(items)@ == old(items)@.push(
            CharSetItem::Range(CharRange { start: start as u32, end_inclusive: end_inclusive as u32 }),
        ),
{
    items.push(CharSetItem::new_range(start, end_inclusive));
}

pub fn add_preset_space(items: &mut Vec<CharSetItem>)
    ensures
        final(items)@ == old(items)@ + space_items(),
{
    add_char(items, ' ');
    add_char(items, '\t');
    add_char(items, '\r');
    add_char(items, '\n');
    proof {
        assert(final(items)@ =~= old(items)@ + space_items());
    }
}

pub fn add_preset_word(items: &mut Vec<CharSetItem>)
    ensures
        final(items)@ == old(items)@ + word_items(),
{
    add_range(items, 'A', 'Z');
    add_range(items, 'a', 'z');
    add_range(items, '0', '9');
    add_char(items, '_');
    proof {
        assert(final(items)@ =~= old(items)@ + word_items());
    }
}

pub fn add_preset_digit(items: &mut Vec<CharSetItem>)
    ensures
        final(items)@ == old(items)@ + digit_items(),
{
    add_range(items, '0', '9');
    proof {
        assert(final(items)@ =~= old(items)@ + digit_items());
    }
}

impl BackReferenceTransition {
    pub fn new(capture_group_index: usize) -> (t: BackReferenceTransition)
        ensures
            t.capture_group_index == capture_group_index,
    {
        BackReferenceTransition { capture_group_index }
    }
}

impl LineBoundaryAssertionTransition {
    pub fn new(is_end: bool) -> (t: LineBoundaryAssertionTransition)
        ensures
            t.is_end == is_end,
    {
        LineBoundaryAssertionTransition { is_end }
    }
}

impl WordBoundaryAssertionTransition {
    pub fn new(is_negative: bool) -> (t: WordBoundaryAssertionTransition)
        ensures
            t.is_negative == is_negative,
    {
        WordBoundaryAssertionTransition { is_negative }
    }
}

impl CaptureStartTransition {
    pub fn new(capture_group_index: usize) -> (t: CaptureStartTransition)
        ensures
            t.capture_group_index == capture_group_index,
    {
        CaptureStartTransition { capture_group_index }
    }
}

impl CaptureEndTransition {
    pub fn new(capture_group_index: usize) -> (t: CaptureEndTransition)
        ensures
            t.capture_group_index == capture_group_index,
    {
        CaptureEndTransition { capture_group_index }
    }
}

impl CounterResetTransition {
    pub fn new(counter_index: usize) -> (t: CounterResetTransition)
        ensures
            t.counter_index == counter_index,
    {
        CounterResetTransition { counter_index }
    }
}

impl CounterIncrementTransition {
    pub fn new(counter_index: usize) -> (t: CounterIncrementTransition)
        ensures
            t.counter_index == counter_index,
    {
        CounterIncrementTransition { counter_index }
    }
}

impl RepetitionForwardTransition {
    pub fn new(repetition_type: RepetitionType) -> (t: RepetitionForwardTransition)
        ensures
            t.repetition_type == repetition_type,
    {
        RepetitionForwardTransition { repetition_type }
    }
}

impl RepetitionBackTransition {
    pub fn new(repetition_type: RepetitionType) -> (t: RepetitionBackTransition)
        ensures
            t.repetition_type == repetition_type,
    {
        RepetitionBackTransition { repetition_type }
    }
}

impl LookAheadAssertionTransition {
    pub fn new(route_index: usize, is_negative: bool) -> (t: LookAheadAssertionTransition)
        ensures
            t.route_index == route_index,
            t.is_negative == is_negative,
    {
        LookAheadAssertionTransition { route_index, is_negative }
    }
}

impl LookBehindAssertionTransition {
    pub fn new(route_index: usize, is_negative: bool, match_length_in_char: usize) -> (t:
        LookBehindAssertionTransition)
        ensures
            t.route_index == route_index,
            t.is_negative == is_negative,
            t.match_length_in_char == match_length_in_char,
    {
        LookBehindAssertionTransition { route_index, is_negative, match_length_in_char }
    }
}

/// The text of a code point: the character with the printer's escapes, or
/// the replacement character where the value is no character.
pub open spec fn codepoint_text(v: u32) -> Seq<char> {
    if is_scalar_value(v as nat) {
        escape_char_text(v as char)
    } else {
        seq!['\u{fffd}']
    }
}

/// The texts of code points, one after the other.
pub open spec fn codepoints_text(vs: Seq<u32>) -> Seq<char>
    decreases vs.len(),
{
    if vs.len() == 0 {
        seq![]
    } else {
        codepoints_text(vs.drop_last()) + codepoint_text(vs.last())
    }
}

/// The text of a character set item: `'a'` or `'a'..'z'`.
pub open spec fn item_text(item: CharSetItem) -> Seq<char> {
    match item {
        CharSetItem::Char(v) => seq!['\''] + codepoint_text(v) + seq!['\''],
        CharSetItem::Range(r) => seq!['\''] + codepoint_text(r.start) + seq!['\'', '.', '.', '\'']
            + codepoint_text(r.end_inclusive) + seq!['\''],
    }
}

/// The texts of character set items, separated by commas.
pub open spec fn items_text(items: Seq<CharSetItem>) -> Seq<char>
    decreases items.len(),
{
    if items.len() == 0 {
        seq![]
    } else if items.len() == 1 {
        item_text(items[0])
    } else {
        items_text(items.drop_last()) + seq![',', ' '] + item_text(items.last())
    }
}

/// The text of a repetition type: `[n]`, `[m..]` or `[m..n]`.
pub open spec fn repetition_type_text(r: RepetitionType) -> Seq<char> {
    match r {
        RepetitionType::Repeat(n) => seq!['['] + decimal_chars(n as nat) + seq![']'],
        RepetitionType::RepeatFrom(m) => seq!['['] + decimal_chars(m as nat) + seq!['.', '.', ']'],
        RepetitionType::RepeatRange(m, n) => seq!['['] + decimal_chars(m as nat) + seq!['.', '.']
            + decimal_chars(n as nat) + seq![']'],
    }
}

/// The text of a transition, as the route's debug text shows it.
pub open spec fn transition_text(t: Transition) -> Seq<char> {
    match t {
        Transition::Jump(_) => "Jump"@,
        Transition::Char(c) => "Char '"@ + codepoint_text(c.codepoint) + "'"@,
        Transition::AnyChar(_) => "Any char"@,
        Transition::String(s) => "String \""@ + codepoints_text(s.codepoints@) + "\""@,
        Transition::CharSet(c) => if c.negative {
            "Charset !["@ + items_text(c.items@) + "]"@
        } else {
            "Charset ["@ + items_text(c.items@) + "]"@
        },
        Transition::BackReference(b) => "Back reference {"@ + decimal_chars(
            b.capture_group_index as nat,
        ) + "}"@,
        Transition::LineBoundaryAssertion(l) => if l.is_end {
            "Line boundary assertion is_end()"@
        } else {
            "Line boundary assertion is_start()"@
        },
        Transition::WordBoundaryAssertion(w) => if w.is_negative {
            "Word boundary assertion is_not_bound()"@
        } else {
            "Word boundary assertion is_bound()"@
        },
        Transition::CaptureStart(c) => "Capture start {"@ + decimal_chars(
            c.capture_group_index as nat,
        ) + "}"@,
        Transition::CaptureEnd(c) => "Capture end {"@ + decimal_chars(c.capture_group_index as nat)
            + "}"@,
        Transition::CounterReset(_) => "Counter reset"@,
        Transition::CounterIncrement(_) => "Counter increment"@,
        Transition::RepetitionForward(r) => "Repetition forward "@ + repetition_type_text(
            r.repetition_type,
        ),
        Transition::RepetitionBack(r) => "Repetition back "@ + repetition_type_text(
            r.repetition_type,
        ),
        Transition::LookAheadAssertion(l) => if l.is_negative {
            "Look ahead negative $"@ + decimal_chars(l.route_index as nat)
        } else {
            "Look ahead $"@ + decimal_chars(l.route_index as nat)
        },
        Transition::LookBehindAssertion(l) => if l.is_negative {
            "Look behind negative $"@ + decimal_chars(l.route_index as nat) + ", match length "@
                + decimal_chars(l.match_length_in_char as nat)
        } else {
            "Look behind $"@ + decimal_chars(l.route_index as nat) + ", match length "@
                + decimal_chars(l.match_length_in_char as nat)
        },
    }
}

fn write_codepoint(v: u32, out: &mut String)
    ensures
        final(out)@ == old(out)@ + codepoint_text(v),
{
    match char_from_u32(v) {
        Some(c) => write_escaped_char(c, out),
        None => {
            push_char(out, '\u{fffd}');
            proof {
                assert(final(out)@ =~= old(out)@ + codepoint_text(v));
            }
        },
    }
}

fn write_item(item: &CharSetItem, out: &mut String)
    ensures
        final(out)@ == old(out)@ + item_text(*item),
{
    let ghost o = out@;
    match item {
        CharSetItem::Char(v) => {
            push_char(out, '\'');
            write_codepoint(*v, out);
            push_char(out, '\'');
        },
        CharSetItem::Range(r) => {
            push_char(out, '\'');
            write_codepoint(r.start, out);
            push_str(out, "'..'");
            write_codepoint(r.end_inclusive, out);
            push_char(out, '\'');
            proof {
                reveal_strlit("'..'");
            }
        },
    }
    proof {
        assert(out@ =~= o + item_text(*item));
    }
}

fn write_repetition_type(r: RepetitionType, out: &mut String)
    ensures
        final(out)@ == old(out)@ + repetition_type_text(r),
{
    let ghost o = out@;
    match r {
        RepetitionType::Repeat(n) => {
            push_char(out, '[');
            push_decimal(out, n);
            push_char(out, ']');
        },
        RepetitionType::RepeatFrom(m) => {
            push_char(out, '[');
            push_decimal(out, m);
            push_str(out, "..]");
            proof {
                reveal_strlit("..]");
            }
        },
        RepetitionType::RepeatRange(m, n) => {
            push_char(out, '[');
            push_decimal(out, m);
            push_str(out, "..");
            push_decimal(out, n);
            push_char(out, ']');
            proof {
                reveal_strlit("..");
            }
        },
    }
    proof {
        assert(out@ =~= o + repetition_type_text(r));
    }
}

/// Appends a text, then a decimal number.
fn write_text_and_number(text: &str, n: usize, out: &mut String)
    ensures
        final(out)@ == old(out)@ + text@ + decimal_chars(n as nat),
{
    push_str(out, text);
    push_decimal(out, n);
    proof {
        assert(final(out)@ =~= old(out)@ + text@ + decimal_chars(n as nat));
    }
}

impl Transition {
    /// The text of the transition, as the route's debug text shows it.
    pub fn to_string(&self) -> (s: String)
        ensures
            s@ == transition_text(*self),
    {
        let mut out = String::new();
        match self {
            Transition::Jump(_) => push_str(&mut out, "Jump"),
            Transition::Char(c) => {
                push_str(&mut out, "Char '");
                write_codepoint(c.codepoint, &mut out);
                push_str(&mut out, "'");
            },
            Transition::AnyChar(_) => push_str(&mut out, "Any char"),
            Transition::String(s) => {
                push_str(&mut out, "String \"");
                let mut i: usize = 0;
                while i < s.codepoints.len()
                    invariant
                        i <= s.codepoints@.len(),
                        out@ == "String \""@ + codepoints_text(s.codepoints@.take(i as int)),
                    decreases s.codepoints.len() - i,
                {
                    write_codepoint(s.codepoints[i], &mut out);
                    proof {
                        assert(s.codepoints@.take(i + 1).drop_last() =~= s.codepoints@.take(
                            i as int,
                        ));
                    }
                    i = i + 1;
                }
                proof {
                    assert(s.codepoints@.take(i as int) =~= s.codepoints@);
                }
                push_str(&mut out, "\"");
            },
            Transition::CharSet(c) => {
                if c.negative {
                    push_str(&mut out, "Charset ![");
                } else {
                    push_str(&mut out, "Charset [");
                }
                let ghost head = out@;
                let mut i: usize = 0;
                while i < c.items.len()
                    invariant
                        i <= c.items@.len(),
                        out@ == head + items_text(c.items@.take(i as int)),
                    decreases c.items.len() - i,
                {
                    if i > 0 {
                        push_str(&mut out, ", ");
                        proof {
                            reveal_strlit(", ");
                        }
                    }
                    write_item(&c.items[i], &mut out);
                    proof {
                        let t = c.items@.take(i + 1);
                        assert(t.drop_last() =~= c.items@.take(i as int));
                        if i == 0 {
                            assert(c.items@.take(0) =~= Seq::<CharSetItem>::empty());
                        }
                    }
                    i = i + 1;
                }
                proof {
                    assert(c.items@.take(i as int) =~= c.items@);
                }
                push_str(&mut out, "]");
            },
            Transition::BackReference(b) => {
                write_text_and_number("Back reference {", b.capture_group_index, &mut out);
                push_str(&mut out, "}");
            },
            Transition::LineBoundaryAssertion(l) => {
                if l.is_end {
                    push_str(&mut out, "Line boundary assertion is_end()");
                } else {
                    push_str(&mut out, "Line boundary assertion is_start()");
                }
            },
            Transition::WordBoundaryAssertion(w) => {
                if w.is_negative {
                    push_str(&mut out, "Word boundary assertion is_not_bound()");
                } else {
                    push_str(&mut out, "Word boundary assertion is_bound()");
                }
            },
            Transition::CaptureStart(c) => {
                write_text_and_number("Capture start {", c.capture_group_index, &mut out);
                push_str(&mut out, "}");
            },
            Transition::CaptureEnd(c) => {
                write_text_and_number("Capture end {", c.capture_group_index, &mut out);
                push_str(&mut out, "}");
            },
            Transition::CounterReset(_) => push_str(&mut out, "Counter reset"),
            Transition::CounterIncrement(_) => push_str(&mut out, "Counter increment"),
            Transition::RepetitionForward(r) => {
                push_str(&mut out, "Repetition forward ");
                write_repetition_type(r.repetition_type, &mut out);
            },
            Transition::RepetitionBack(r) => {
                push_str(&mut out, "Repetition back ");
                write_repetition_type(r.repetition_type, &mut out);
            },
            Transition::LookAheadAssertion(l) => {
                if l.is_negative {
                    write_text_and_number("Look ahead negative $", l.route_index, &mut out);
                } else {
                    write_text_and_number("Look ahead $", l.route_index, &mut out);
                }
            },
            Transition::LookBehindAssertion(l) => {
                if l.is_negative {
                    write_text_and_number("Look behind negative $", l.route_index, &mut out);
                } else {
                    write_text_and_number("Look behind $", l.route_index, &mut out);
                }
                write_text_and_number(", match length ", l.match_length_in_char, &mut out);
            },
        }
        proof {
            assert(out@ =~= transition_text(*self));
        }
        out
    }
}

/// The length of a text's UTF-8 encoding counts its first character, then
/// the rest.
proof fn lemma_utf8_len_of_first(s: Seq<char>)
    requires
        s.len() > 0,
    ensures
        utf8_len_of(s) == utf8_len(s[0]) + utf8_len_of(s.drop_first()),
    decreases s.len(),
{
    if s.len() > 1 {
        let dl = s.drop_last();
        let df = s.drop_first();
        lemma_utf8_len_of_first(dl);
        assert(dl.drop_first() =~= df.drop_last());
        assert(df.last() == s.last());
        assert(dl[0] == s[0]);
        assert(utf8_len_of(s) == utf8_len_of(dl) + utf8_len(s.last()));
        assert(utf8_len_of(df) == utf8_len_of(df.drop_last()) + utf8_len(df.last()));
    } else {
        assert(s.drop_first().len() == 0);
        assert(s.drop_last().len() == 0);
        assert(utf8_len_of(s.drop_first()) == 0);
        assert(utf8_len_of(s.drop_last()) == 0);
        assert(s.last() == s[0]);
        assert(utf8_len_of(s) == utf8_len_of(s.drop_last()) + utf8_len(s.last()));
    }
}

/// `utf8_len_of` is the length of the UTF-8 encoding that std gives a text.
pub proof fn lemma_utf8_len_of_encoding(s: Seq<char>)
    ensures
        utf8_len_of(s) == vstd::utf8::encode_utf8(s).len(),
    decreases s.len(),
{
    if s.len() > 0 {
        lemma_utf8_len_of_first(s);
        lemma_utf8_len_of_encoding(s.drop_first());
        vstd::utf8::char_is_scalar(s[0]);
    }
}

/// The UTF-8 length of two texts one after the other is the sum of their
/// lengths.
pub proof fn lemma_utf8_len_of_concat(a: Seq<char>, b: Seq<char>)
    ensures
        utf8_len_of(a + b) == utf8_len_of(a) + utf8_len_of(b),
    decreases b.len(),
{
    if b.len() > 0 {
        lemma_utf8_len_of_concat(a, b.drop_last());
        assert((a + b).drop_last() =~= a + b.drop_last());
        assert((a + b).last() == b.last());
    } else {
        assert(a + b =~= a);
    }
}

} // verus!
