use vstd::prelude::*;

use crate::anre::parser::anre_program;
use crate::compiler::{compilation_of, compile_from_anre, compile_from_regex, route_wf};
use crate::traditional::parser::regex_program;
use crate::process::lemma_search_leftmost;
use crate::error::AnreError;
use crate::process::{bounded, lemma_search_bounded, match_at, search, search_from, Slots};
use crate::semantics::{leftmost, lemma_search_main};
use crate::route::{has_name, Route};
use crate::text::{chars_of, push_char, string_equals, string_from_str};
use crate::transition::{
    char_utf8_len, lemma_utf8_len_of_concat, lemma_utf8_len_of_encoding, lemma_utf8_len_of_prefix,
    utf8_len, utf8_len_of,
};

verus! {

/// The byte offset, in the UTF-8 encoding of the text, of the character at
/// index `k` (the end of the text for `k` past it).
pub open spec fn byte_offset(text: Seq<char>, k: int) -> nat {
    if k <= text.len() {
        utf8_len_of(text.take(k))
    } else {
        utf8_len_of(text)
    }
}

/// The characters from `s` to `e`, or nothing where they are no range of
/// the text.
pub open spec fn slice_of(text: Seq<char>, s: int, e: int) -> Seq<char> {
    if 0 <= s <= e <= text.len() {
        text.subrange(s, e)
    } else {
        seq![]
    }
}

/// `m` reports capture group `i`: where its capture starts and ends in
/// bytes, its name and the captured text.
pub open spec fn reports(m: Match, route: Route, text: Seq<char>, slots: Slots, i: int) -> bool {
    let (s, e) = slots[i];
    &&& m.start == byte_offset(text, s as int)
    &&& m.end == byte_offset(text, e as int)
    &&& m.value@ == slice_of(text, s as int, e as int)
    &&& match route.capture_groups@[i].name {
        Some(n) => m.name matches Some(x) && x@ == n@,
        None => m.name is None,
    }
}

/// `m` is the match of a whole pattern over the characters `s..e` of the
/// text: its byte offsets, its text, and no name.
pub open spec fn whole_match(m: Match, text: Seq<char>, s: int, e: int) -> bool {
    &&& m.start == byte_offset(text, s)
    &&& m.end == byte_offset(text, e)
    &&& m.value@ == text.subrange(s, e)
    &&& m.name is None
}

/// What `find` returns: the leftmost match of the route in the text, if any.
pub open spec fn find_result(route: Route, text: Seq<char>, r: Option<Match>) -> bool {
    match leftmost(route, text, 0) {
        Some((s, e)) => r matches Some(m) && whole_match(m, text, s, e),
        None => r is None,
    }
}

/// What `captures` returns: at the leftmost match, one match for each
/// capture group, the first being the whole match.
pub open spec fn captures_result(route: Route, text: Seq<char>, r: Option<Captures>) -> bool {
    match search(route, text, 0) {
        Some((st, slots)) => r matches Some(c) && c.matches@.len() == slots.len() && (forall|i: int|
            0 <= i < slots.len() ==> reports(#[trigger] c.matches@[i], route, text, slots, i))
            && whole_match(c.matches@[0], text, st, slots[0].1 as int),
        None => r is None,
    }
}

/// What the next match of an iteration is, searching from `last`, and
/// where the search after it starts.
pub open spec fn next_result(route: Route, text: Seq<char>, last: int, r: Option<Match>, after: int) -> bool {
    match leftmost(route, text, last) {
        Some((s, e)) => r matches Some(m) && whole_match(m, text, s, e) && after == next_position(last, e),
        None => r is None && after == last,
    }
}

/// A match of a pattern, or of one of its capture groups.
#[derive(Debug, PartialEq, Clone)]
pub struct Match {
    /// The byte offset where the match starts.
    pub start: usize,
    /// The byte offset where the match ends (exclusive).
    pub end: usize,
    /// The name of the capture group.
    pub name: Option<String>,
    /// The text matched.
    pub value: String,
}

impl Match {
    pub fn new(start: usize, end: usize, name: Option<&str>, value: &str) -> (m: Match)
        ensures
            m.start == start,
            m.end == end,
            m.value@ == value@,
            match name {
                Some(n) => m.name matches Some(x) && x@ == n@,
                None => m.name is None,
            },
    {
        let name = match name {
            Some(n) => Some(string_from_str(n)),
            None => None,
        };
        Match { start, end, name, value: string_from_str(value) }
    }

    pub fn start(&self) -> (r: usize)
        ensures
            r == self.start,
    {
        self.start
    }

    pub fn end(&self) -> (r: usize)
        ensures
            r == self.end,
    {
        self.end
    }

    /// The match is empty.
    pub fn is_empty(&self) -> (r: bool)
        requires
            self.start <= self.end,
        ensures
            r == (self.start == self.end),
    {
        self.len() == 0
    }

    /// The length of the match in bytes.
    pub fn len(&self) -> (r: usize)
        requires
            self.start <= self.end,
        ensures
            r == self.end - self.start,
    {
        self.end - self.start
    }

    /// The byte range of the match.
    pub fn range(&self) -> (r: std::ops::Range<usize>)
        ensures
            r.start == self.start,
            r.end == self.end,
    {
        self.start..self.end
    }

    /// The text matched.
    pub fn as_str(&self) -> (r: &str)
        ensures
            r@ == self.value@,
    {
        self.value.as_str()
    }
}

/// The matches of a pattern's capture groups; the first is the match of
/// the whole pattern.
#[derive(Debug, PartialEq, Clone)]
pub struct Captures {
    pub matches: Vec<Match>,
}

/// The name of the match is `name`.
pub open spec fn named(m: Match, name: Seq<char>) -> bool {
    m.name matches Some(n) && n@ == name
}

impl Captures {
    /// The match of capture group `index`, if there is one.
    pub fn get(&self, index: usize) -> (r: Option<&Match>)
        ensures
            index < self.matches@.len() ==> r == Some(&self.matches@[index as int]),
            index >= self.matches@.len() ==> r is None,
    {
        if index < self.matches.len() {
            Some(&self.matches[index])
        } else {
            None
        }
    }

    /// The first match of a capture group named `name`, if there is one.
    pub fn name(&self, name: &str) -> (r: Option<&Match>)
        ensures
            match r {
                Some(m) => exists|i: int|
                    0 <= i < self.matches@.len() && self.matches@[i] == *m && named(*m, name@)
                        && forall|j: int| 0 <= j < i ==> !named(#[trigger] self.matches@[j], name@),
                None => forall|j: int| 0 <= j < self.matches@.len() ==> !named(#[trigger] self.matches@[j], name@),
            },
    {
        let mut i: usize = 0;
        while i < self.matches.len()
            invariant
                i <= self.matches@.len(),
                forall|j: int| 0 <= j < i ==> !named(#[trigger] self.matches@[j], name@),
            decreases self.matches.len() - i,
        {
            let found = match &self.matches[i].name {
                Some(n) => string_equals(n.as_str(), name),
                None => false,
            };
            if found {
                return Some(&self.matches[i]);
            }
            i = i + 1;
        }
        None
    }

    /// The number of matches.
    pub fn len(&self) -> (r: usize)
        ensures
            r == self.matches@.len(),
    {
        self.matches.len()
    }

    /// There are no matches.
    pub fn is_empty(&self) -> (r: bool)
        ensures
            r == (self.matches@.len() == 0),
    {
        self.len() == 0
    }
}

/// The characters of a text and the byte offset of each of them, and of
/// the end of the text.
fn subject(text: &str) -> (r: (Vec<char>, Vec<usize>))
    ensures
        r.0@ == text@,
        r.1@.len() == text@.len() + 1,
        text@.len() < usize::MAX,
        forall|k: int| 0 <= k <= text@.len() ==> #[trigger] r.1@[k] == utf8_len_of(text@.take(k)),
{
    let bytes = text.as_bytes();
    let blen = bytes.len();
    proof {
        lemma_utf8_len_of_encoding(text@);
    }
    let chars = chars_of(text);
    let mut offsets: Vec<usize> = Vec::new();
    offsets.push(0);
    proof {
        assert(text@.take(0) =~= Seq::<char>::empty());
    }
    let mut total: usize = 0;
    let mut i: usize = 0;
    while i < chars.len()
        invariant
            chars@ == text@,
            i <= chars@.len(),
            offsets@.len() == i + 1,
            total == utf8_len_of(text@.take(i as int)),
            forall|k: int| 0 <= k <= i ==> #[trigger] offsets@[k] == utf8_len_of(text@.take(k)),
            utf8_len_of(text@) == blen,
        decreases chars.len() - i,
    {
        proof {
            assert(text@.take(i + 1).drop_last() =~= text@.take(i as int));
            lemma_utf8_len_of_prefix(text@, i + 1);
        }
        total = total + char_utf8_len(chars[i]);
        offsets.push(total);
        i = i + 1;
    }
    let olen = offsets.len();
    (chars, offsets)
}

/// The characters `s..e` of a text as a new `String`.
fn substring(chars: &Vec<char>, s: usize, e: usize) -> (r: String)
    requires
        s <= e <= chars@.len(),
    ensures
        r@ == chars@.subrange(s as int, e as int),
{
    let mut out = String::new();
    let mut k = s;
    while k < e
        invariant
            s <= k <= e <= chars@.len(),
            out@ == chars@.subrange(s as int, k as int),
        decreases e - k,
    {
        push_char(&mut out, chars[k]);
        k = k + 1;
        proof {
            assert(out@ =~= chars@.subrange(s as int, k as int));
        }
    }
    out
}

/// The match of capture group `i`.
fn make_match(
    route: &Route,
    chars: &Vec<char>,
    offsets: &Vec<usize>,
    slots: &Vec<(usize, usize)>,
    i: usize,
) -> (m: Match)
    requires
        i < slots@.len(),
        i < route.capture_groups@.len(),
        offsets@.len() == chars@.len() + 1,
        forall|k: int| 0 <= k <= chars@.len() ==> #[trigger] offsets@[k] == utf8_len_of(chars@.take(k)),
        bounded(seq![], slots@, chars@.len()),
    ensures
        reports(m, *route, chars@, slots@, i as int),
{
    let (s, e) = slots[i];
    let value = if s <= e {
        substring(chars, s, e)
    } else {
        String::new()
    };
    let name = match &route.capture_groups[i].name {
        Some(n) => Some(n.clone()),
        None => None,
    };
    Match { start: offsets[s], end: offsets[e], name, value }
}

/// The matches of all capture groups.
fn make_captures(
    route: &Route,
    chars: &Vec<char>,
    offsets: &Vec<usize>,
    slots: &Vec<(usize, usize)>,
) -> (c: Captures)
    requires
        slots@.len() == route.capture_groups@.len(),
        offsets@.len() == chars@.len() + 1,
        forall|k: int| 0 <= k <= chars@.len() ==> #[trigger] offsets@[k] == utf8_len_of(chars@.take(k)),
        bounded(seq![], slots@, chars@.len()),
    ensures
        c.matches@.len() == slots@.len(),
        forall|i: int| 0 <= i < slots@.len() ==> reports(#[trigger] c.matches@[i], *route, chars@, slots@, i),
{
    let mut matches: Vec<Match> = Vec::new();
    let mut i: usize = 0;
    while i < slots.len()
        invariant
            i <= slots@.len(),
            slots@.len() == route.capture_groups@.len(),
            offsets@.len() == chars@.len() + 1,
            forall|k: int| 0 <= k <= chars@.len() ==> #[trigger] offsets@[k] == utf8_len_of(chars@.take(k)),
            bounded(seq![], slots@, chars@.len()),
            matches@.len() == i,
            forall|j: int| 0 <= j < i ==> reports(#[trigger] matches@[j], *route, chars@, slots@, j),
        decreases slots.len() - i,
    {
        matches.push(make_match(route, chars, offsets, slots, i));
        i = i + 1;
    }
    Captures { matches }
}

/// A compiled pattern.
pub struct Regex {
    route: Route,
}

impl Regex {
    #[verifier::type_invariant]
    spec fn inv(self) -> bool {
        route_wf(self.route)
    }

    /// The route that the pattern compiled to.
    pub closed spec fn compiled(&self) -> Route {
        self.route
    }

    /// Tells the caller's proof that the route of this `Regex` is well
    /// formed, as it is of every `Regex`; it computes nothing.
    pub fn route_is_well_formed(&self)
        ensures
            route_wf(self.compiled()),
    {
        proof {
            use_type_invariant(self);
        }
    }

    /// Compiles a pattern in the traditional notation.
    pub fn new(pattern: &str) -> (r: Result<Regex, AnreError>)
        ensures
            r matches Ok(re) ==> route_wf(re.compiled()),
            match regex_program(pattern@) {
                Some(v) => compilation_of(v, r is Ok, r->Ok_0.compiled()),
                None => r is Err,
            },
    {
        match compile_from_regex(pattern) {
            Ok(route) => Ok(Regex { route }),
            Err(e) => Err(e),
        }
    }

    /// Compiles a pattern in the ANRE notation.
    pub fn from_anre(expression: &str) -> (r: Result<Regex, AnreError>)
        ensures
            r matches Ok(re) ==> route_wf(re.compiled()),
            match anre_program(expression@) {
                Some(v) => compilation_of(v, r is Ok, r->Ok_0.compiled()),
                None => r is Err,
            },
    {
        match compile_from_anre(expression) {
            Ok(route) => Ok(Regex { route }),
            Err(e) => Err(e),
        }
    }

    /// The leftmost match in the text.
    pub fn find(&self, text: &str) -> (r: Option<Match>)
        ensures
            find_result(self.compiled(), text@, r),
    {
        proof {
            use_type_invariant(self);
        }
        let (chars, offsets) = subject(text);
        proof {
            lemma_search_main(self.route, chars@, 0);
        }
        match search_from(&self.route, &chars, 0) {
            Some((_, slots)) => Some(make_match(&self.route, &chars, &offsets, &slots, 0)),
            None => None,
        }
    }

    /// The matches of the capture groups at the leftmost match in the text.
    pub fn captures(&self, text: &str) -> (r: Option<Captures>)
        ensures
            captures_result(self.compiled(), text@, r),
    {
        proof {
            use_type_invariant(self);
        }
        let (chars, offsets) = subject(text);
        proof {
            lemma_search_main(self.route, chars@, 0);
        }
        match search_from(&self.route, &chars, 0) {
            Some((_, slots)) => Some(make_captures(&self.route, &chars, &offsets, &slots)),
            None => None,
        }
    }

    /// Whether the pattern matches somewhere in the text.
    pub fn is_match(&self, text: &str) -> (r: bool)
        ensures
            r == leftmost(self.compiled(), text@, 0) is Some,
    {
        let chars = chars_of(text);
        search_from(&self.route, &chars, 0).is_some()
    }

    /// The successive matches in the text.
    pub fn find_iter<'a>(&'a self, text: &str) -> (r: Matches<'a>)
        ensures
            r.regex() == *self,
            r.text() == text@,
            r.last_position() == 0,
    {
        let (chars, offsets) = subject(text);
        Matches { regex: self, chars, offsets, last_position: 0 }
    }

    /// The successive matches of the capture groups in the text.
    pub fn captures_iter<'a>(&'a self, text: &str) -> (r: CaptureMatches<'a>)
        ensures
            r.regex() == *self,
            r.text() == text@,
            r.last_position() == 0,
    {
        let (chars, offsets) = subject(text);
        CaptureMatches { regex: self, chars, offsets, last_position: 0 }
    }
}

/// Where the search for the next match starts after a match that ends at
/// `end` was found from `last`: at its end, or one character further when
/// the match is empty where the search started.
pub open spec fn next_position(last: int, end: int) -> int {
    if end == last {
        last + 1
    } else {
        end
    }
}

/// The successive matches of a pattern in a text.
pub struct Matches<'a> {
    regex: &'a Regex,
    chars: Vec<char>,
    offsets: Vec<usize>,
    last_position: usize,
}

impl<'a> Matches<'a> {
    pub closed spec fn regex(&self) -> Regex {
        *self.regex
    }

    pub closed spec fn text(&self) -> Seq<char> {
        self.chars@
    }

    /// The character index where the search for the next match starts.
    pub closed spec fn last_position(&self) -> int {
        self.last_position as int
    }

    #[verifier::type_invariant]
    spec fn wf(self) -> bool {
        &&& self.offsets@.len() == self.chars@.len() + 1
        &&& self.chars@.len() < usize::MAX
        &&& forall|k: int| 0 <= k <= self.chars@.len() ==> #[trigger] self.offsets@[k] == utf8_len_of(self.chars@.take(k))
    }

    /// The next match, searching from where the last one ended.
    pub fn next(&mut self) -> (r: Option<Match>)
        ensures
            final(self).regex() == old(self).regex(),
            final(self).text() == old(self).text(),
            next_result(
                old(self).regex().compiled(),
                old(self).text(),
                old(self).last_position(),
                r,
                final(self).last_position(),
            ),
    {
        proof {
            use_type_invariant(&*self);
            use_type_invariant(self.regex);
            lemma_search_main(self.regex.route, self.chars@, self.last_position as int);
        }
        match search_from(&self.regex.route, &self.chars, self.last_position) {
            Some((_, slots)) => {
                let m = make_match(&self.regex.route, &self.chars, &self.offsets, &slots, 0);
                let end = slots[0].1;
                self.last_position = if end == self.last_position {
                    self.last_position + 1
                } else {
                    end
                };
                Some(m)
            },
            None => None,
        }
    }
}

/// The successive matches of a pattern's capture groups in a text.
pub struct CaptureMatches<'a> {
    regex: &'a Regex,
    chars: Vec<char>,
    offsets: Vec<usize>,
    last_position: usize,
}

impl<'a> CaptureMatches<'a> {
    pub closed spec fn regex(&self) -> Regex {
        *self.regex
    }

    pub closed spec fn text(&self) -> Seq<char> {
        self.chars@
    }

    /// The character index where the search for the next match starts.
    pub closed spec fn last_position(&self) -> int {
        self.last_position as int
    }

    #[verifier::type_invariant]
    spec fn wf(self) -> bool {
        &&& self.offsets@.len() == self.chars@.len() + 1
        &&& self.chars@.len() < usize::MAX
        &&& forall|k: int| 0 <= k <= self.chars@.len() ==> #[trigger] self.offsets@[k] == utf8_len_of(self.chars@.take(k))
    }

    /// The matches of the capture groups at the next match, searching from
    /// where the last one ended.
    pub fn next(&mut self) -> (r: Option<Captures>)
        ensures
            final(self).regex() == old(self).regex(),
            final(self).text() == old(self).text(),
            match search(old(self).regex().compiled(), old(self).text(), old(self).last_position()) {
                Some((st, slots)) => r matches Some(c) && c.matches@.len() == slots.len() && (forall|i: int|
                    0 <= i < slots.len() ==> reports(#[trigger] c.matches@[i], old(self).regex().compiled(), old(self).text(), slots, i))
                    && whole_match(c.matches@[0], old(self).text(), st, slots[0].1 as int)
                    && final(self).last_position() == next_position(old(self).last_position(), slots[0].1 as int),
                None => r is None && final(self).last_position() == old(self).last_position(),
            },
    {
        proof {
            use_type_invariant(&*self);
            use_type_invariant(self.regex);
            lemma_search_main(self.regex.route, self.chars@, self.last_position as int);
        }
        match search_from(&self.regex.route, &self.chars, self.last_position) {
            Some((_, slots)) => {
                let c = make_captures(&self.regex.route, &self.chars, &self.offsets, &slots);
                let end = slots[0].1;
                self.last_position = if end == self.last_position {
                    self.last_position + 1
                } else {
                    end
                };
                Some(c)
            },
            None => None,
        }
    }
}

impl std::ops::Index<usize> for Captures {
    type Output = str;

    /// The text of the match of capture group `index`.
    fn index(&self, index: usize) -> (r: &str)
        ensures
            r@ == self.matches@[index as int].value@,
    {
        self.matches[index].value.as_str()
    }
}

impl vstd::std_specs::core::IndexSpecImpl<usize> for Captures {
    open spec fn index_req(&self, index: &usize) -> bool {
        *index < self.matches@.len()
    }
}

impl Captures {
    /// The text of the whole match and the texts of the first `N` capture
    /// groups.
    pub fn extract<const N: usize>(&self) -> (r: (&str, [&str; N]))
        requires
            N < self.matches@.len(),
        ensures
            r.0@ == self.matches@[0].value@,
            forall|i: int| 0 <= i < N ==> r.1@[i]@ == self.matches@[i + 1].value@,
    {
        let mut items: [&str; N] = [""; N];
        let mut i: usize = 0;
        while i < N
            invariant
                i <= N,
                N < self.matches@.len(),
                forall|k: int| 0 <= k < i ==> items@[k]@ == self.matches@[k + 1].value@,
            decreases N - i,
        {
            items.set(i, self.matches[i + 1].value.as_str());
            i = i + 1;
        }
        (self.matches[0].value.as_str(), items)
    }
}

impl<'x> std::ops::Index<&'x str> for Captures {
    type Output = str;

    /// The text of the first match of a capture group named `name`.
    fn index(&self, name: &'x str) -> (r: &str)
        ensures
            exists|i: int|
                0 <= i < self.matches@.len() && named(#[trigger] self.matches@[i], name@) && (forall|j: int|
                    0 <= j < i ==> !named(#[trigger] self.matches@[j], name@)) && r@ == self.matches@[i].value@,
    {
        match self.name(name) {
            Some(m) => m.value.as_str(),
            None => "",
        }
    }
}

impl<'x> vstd::std_specs::core::IndexSpecImpl<&'x str> for Captures {
    open spec fn index_req(&self, name: &&'x str) -> bool {
        exists|i: int| 0 <= i < self.matches@.len() && named(#[trigger] self.matches@[i], (*name)@)
    }
}

/// `is_match` holds of a text exactly when `find` finds a match in it.
pub proof fn is_match_agrees_with_find(route: Route, text: Seq<char>, b: bool, m: Option<Match>)
    requires
        b == leftmost(route, text, 0) is Some,
        find_result(route, text, m),
    ensures
        b == m is Some,
{
}

/// `captures` finds a match exactly where `find` does, and its first match
/// is the one that `find` returns.
pub proof fn captures_agree_with_find(route: Route, text: Seq<char>, c: Option<Captures>, m: Option<Match>)
    requires
        captures_result(route, text, c),
        find_result(route, text, m),
    ensures
        c is Some == m is Some,
        c matches Some(cs) ==> m matches Some(mm) && cs.matches@[0].start == mm.start && cs.matches@[0].end
            == mm.end && cs.matches@[0].value@ == mm.value@ && cs.matches@[0].name is None,
{
}

/// The first match of an iteration over a text is the match that `find`
/// returns.
pub proof fn find_iter_starts_with_find(
    route: Route,
    text: Seq<char>,
    first: Option<Match>,
    after: int,
    m: Option<Match>,
)
    requires
        next_result(route, text, 0, first, after),
        find_result(route, text, m),
    ensures
        first is Some == m is Some,
        first matches Some(f) ==> m matches Some(mm) && f.start == mm.start && f.end == mm.end
            && f.value@ == mm.value@,
{
}

/// The match that `find` returns starts at the first position of the text
/// where the pattern matches, and ends at or after it within the text; no
/// match starts anywhere where `find` finds none.
pub proof fn find_is_leftmost(route: Route, text: Seq<char>)
    requires
        route_wf(route),
        text.len() <= usize::MAX,
    ensures
        leftmost(route, text, 0) matches Some((s, e)) ==> {
            &&& 0 <= s <= e <= text.len()
            &&& match_at(route, text, s) is Some
            &&& forall|k: int| 0 <= k < s ==> match_at(route, text, k) is None
        },
        leftmost(route, text, 0) is None ==> forall|k: int| 0 <= k < text.len() ==> match_at(route, text, k) is None,
{
    lemma_search_main(route, text, 0);
    lemma_search_start(route, text, 0);
    assert forall|k: int| 0 <= k && (leftmost(route, text, 0) matches Some((s, e)) ==> k < s) && (
    leftmost(route, text, 0) is None ==> k < text.len()) implies match_at(route, text, k) is None by {
        lemma_search_leftmost(route, text, 0, k);
    }
}

/// The leftmost match from a position is a match there.
proof fn lemma_search_start(route: Route, text: Seq<char>, from: int)
    ensures
        search(route, text, from) matches Some((st, _)) ==> match_at(route, text, st) is Some,
    decreases text.len() - from,
{
    if 0 <= from < text.len() {
        lemma_search_start(route, text, from + 1);
    }
}

/// Each match of an iteration starts at or after where the search started
/// and ends at or after its start, and the next search starts further on:
/// an iteration over a text ends.
pub proof fn iteration_advances(route: Route, text: Seq<char>, last: int)
    requires
        route_wf(route),
        text.len() <= usize::MAX,
    ensures
        leftmost(route, text, last) matches Some((s, e)) ==> last <= s <= e && next_position(last, e)
            > last,
{
    lemma_search_main(route, text, last);
}

/// The number of matches that an iteration yields when its next search
/// starts at character `last`.
pub open spec fn match_count(route: Route, text: Seq<char>, last: int) -> nat
    decreases text.len() - last,
{
    match leftmost(route, text, last) {
        Some((s, e)) => if last < next_position(last, e) <= text.len() {
            1 + match_count(route, text, next_position(last, e))
        } else {
            1
        },
        None => 0,
    }
}

/// An iteration over a text ends: it yields at most one match for each
/// character of the text after where it starts.
pub proof fn iteration_is_finite(route: Route, text: Seq<char>, last: int)
    requires
        route_wf(route),
        text.len() <= usize::MAX,
        0 <= last <= text.len(),
    ensures
        match_count(route, text, last) <= text.len() - last,
    decreases text.len() - last,
{
    lemma_search_main(route, text, last);
    if let Some((s, e)) = leftmost(route, text, last) {
        let next = next_position(last, e);
        if last < next <= text.len() {
            iteration_is_finite(route, text, next);
        }
    }
}

/// Each match of an iteration lies in the text, and the next match starts
/// where this one ends or further on.
pub proof fn successive_matches_follow(route: Route, text: Seq<char>, last: int)
    requires
        route_wf(route),
        text.len() <= usize::MAX,
    ensures
        leftmost(route, text, last) matches Some((s, e)) ==> {
            &&& last <= s <= e <= text.len()
            &&& leftmost(route, text, next_position(last, e)) matches Some((s2, e2)) ==> e <= s2
                && last < s2
        },
{
    lemma_search_main(route, text, last);
    if let Some((s, e)) = leftmost(route, text, last) {
        lemma_search_main(route, text, next_position(last, e));
    }
}

/// An empty text has no match.
pub proof fn empty_text_never_matches(route: Route)
    ensures
        leftmost(route, seq![], 0) is None,
{
}

/// The byte length of a match, from its start to its end, is the length of
/// the UTF-8 encoding of its text, and the match lies within the text.
pub proof fn match_length_is_text_length(text: Seq<char>, s: int, e: int, m: Match)
    requires
        0 <= s <= e <= text.len(),
        whole_match(m, text, s, e),
    ensures
        m.start <= m.end <= utf8_len_of(text),
        m.end - m.start == utf8_len_of(m.value@),
{
    assert(text.take(e) =~= text.take(s) + text.subrange(s, e));
    lemma_utf8_len_of_concat(text.take(s), text.subrange(s, e));
    lemma_utf8_len_of_prefix(text, e);
}

} // verus!
