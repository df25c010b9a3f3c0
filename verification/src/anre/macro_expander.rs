use vstd::prelude::*;

use crate::anre::token::{clone_token_with_range, is_define, Token, TokenWithRange};
use crate::anre::scan::{token_eq, tokens_agree};
use crate::error::{error_view, AnreError, ErrorView};
use crate::text::{message_with_text, string_equals, string_from_str};

verus! {

/// The range of some token of `tokens`.
pub open spec fn range_of_some_token(tokens: Seq<TokenWithRange>, r: crate::position::Range) -> bool {
    exists|i: int| 0 <= i < tokens.len() && (#[trigger] tokens[i]).range == r
}

fn is_define_token(t: &Token) -> (r: bool)
    ensures
        r == is_define(*t),
{
    match t {
        Token::Keyword(s) => {
            let r = string_equals(s.as_str(), "define");
            proof {
                reveal_strlit("define");
                assert("define"@ =~= seq!['d', 'e', 'f', 'i', 'n', 'e']);
            }
            r
        },
        _ => false,
    }
}

/// The index of the macro named `name`, if any.
fn find_macro(names: &Vec<String>, name: &String) -> (r: Option<usize>)
    ensures
        r matches Some(k) ==> k < names.len() && names@[k as int]@ == name@,
        r is None ==> forall|k: int| 0 <= k < names.len() ==> names@[k]@ != name@,
{
    let mut k: usize = 0;
    while k < names.len()
        invariant
            0 <= k <= names.len(),
            forall|j: int| 0 <= j < k ==> names@[j]@ != name@,
        decreases names.len() - k,
    {
        if string_equals(names[k].as_str(), name.as_str()) {
            return Some(k);
        }
        k = k + 1;
    }
    None
}

// What the expansion makes of a token stream.

/// The names of the macros, as characters.
pub open spec fn names_view(names: Seq<String>) -> Seq<Seq<char>> {
    names.map_values(|n: String| n@)
}

/// The bodies of the macros.
pub open spec fn bodies_view(bodies: Seq<Vec<TokenWithRange>>) -> Seq<Seq<TokenWithRange>> {
    bodies.map_values(|b: Vec<TokenWithRange>| b@)
}

/// What one token becomes: the body of the macro it names, or itself.
pub open spec fn substitute_one(
    t: TokenWithRange,
    names: Seq<Seq<char>>,
    bodies: Seq<Seq<TokenWithRange>>,
) -> Seq<TokenWithRange> {
    match t.token {
        Token::Identifier(id) => if exists|k: int| 0 <= k < names.len() && names[k] == id@ {
            bodies[choose|k: int| 0 <= k < names.len() && names[k] == id@]
        } else {
            seq![t]
        },
        _ => seq![t],
    }
}

/// What the tokens `ts[from..to)` become, one after another.
pub open spec fn substitute_range(
    ts: Seq<TokenWithRange>,
    from: int,
    to: int,
    names: Seq<Seq<char>>,
    bodies: Seq<Seq<TokenWithRange>>,
) -> Seq<TokenWithRange>
    decreases to - from,
{
    if to <= from {
        seq![]
    } else {
        substitute_range(ts, from, to - 1, names, bodies) + substitute_one(ts[to - 1], names, bodies)
    }
}

/// The index of the `)` that closes the group read from index `k` with
/// `depth` parentheses open.
pub open spec fn closing_at(ts: Seq<TokenWithRange>, k: int, depth: nat) -> Option<int>
    decreases ts.len() - k,
{
    if !(0 <= k < ts.len()) {
        None
    } else if ts[k].token is ParenthesisOpen {
        closing_at(ts, k + 1, depth + 1)
    } else if ts[k].token is ParenthesisClose {
        if depth <= 1 {
            Some(k)
        } else {
            closing_at(ts, k + 1, (depth - 1) as nat)
        }
    } else {
        closing_at(ts, k + 1, depth)
    }
}

/// The tokens from index `i` on with the macros expanded, the macros
/// `names` with their `bodies` defined before; `None` where a definition
/// is malformed or defines a name again.
pub open spec fn expand_from(
    ts: Seq<TokenWithRange>,
    i: int,
    names: Seq<Seq<char>>,
    bodies: Seq<Seq<TokenWithRange>>,
) -> Option<Seq<TokenWithRange>>
    decreases ts.len() - i,
{
    if !(0 <= i < ts.len()) {
        Some(seq![])
    } else if is_define(ts[i].token) {
        if i + 2 < ts.len() && ts[i + 1].token is Identifier && ts[i + 2].token is ParenthesisOpen {
            let name = ts[i + 1].token->Identifier_0@;
            match closing_at(ts, i + 2, 0) {
                Some(end) => if i + 2 <= end < ts.len() && !names.contains(name) {
                    expand_from(
                        ts,
                        end + 1,
                        names.push(name),
                        bodies.push(substitute_range(ts, i + 2, end + 1, names, bodies)),
                    )
                } else {
                    None
                },
                None => None,
            }
        } else {
            None
        }
    } else {
        match expand_from(ts, i + 1, names, bodies) {
            Some(rest) => Some(substitute_one(ts[i], names, bodies) + rest),
            None => None,
        }
    }
}

/// The error of the expansion from index `i` on, where it is refused: the
/// first malformed definition, or a name defined again. Where the
/// expansion succeeds, the error is of no account (an empty message).
pub open spec fn expand_error(
    ts: Seq<TokenWithRange>,
    i: int,
    names: Seq<Seq<char>>,
    bodies: Seq<Seq<TokenWithRange>>,
) -> ErrorView
    decreases ts.len() - i,
{
    if !(0 <= i < ts.len()) {
        ErrorView::Message(seq![])
    } else if is_define(ts[i].token) {
        if i + 1 >= ts.len() {
            ErrorView::UnexpectedEndOfDocument("Expected a macro name after \"define\"."@)
        } else if !(ts[i + 1].token is Identifier) {
            ErrorView::MessageWithRange(
                "Expected a macro name after \"define\"."@,
                ts[i + 1].range,
            )
        } else if i + 2 >= ts.len() {
            ErrorView::UnexpectedEndOfDocument("Expected the body of a macro."@)
        } else if !(ts[i + 2].token is ParenthesisOpen) {
            ErrorView::MessageWithRange("Expected a parenthesized macro body."@, ts[i + 2].range)
        } else {
            let name = ts[i + 1].token->Identifier_0@;
            match closing_at(ts, i + 2, 0) {
                Some(end) => if names.contains(name) {
                    ErrorView::MessageWithRange(
                        "The macro \""@ + name + "\" is already defined."@,
                        ts[i + 1].range,
                    )
                } else if i + 2 <= end < ts.len() {
                    expand_error(
                        ts,
                        end + 1,
                        names.push(name),
                        bodies.push(substitute_range(ts, i + 2, end + 1, names, bodies)),
                    )
                } else {
                    ErrorView::Message(seq![])
                },
                None => ErrorView::UnexpectedEndOfDocument("Incomplete macro body."@),
            }
        }
    } else {
        expand_error(ts, i + 1, names, bodies)
    }
}

/// The tokens `done` before the tokens that `o` holds.
pub open spec fn prepend_expanded(done: Seq<TokenWithRange>, o: Option<Seq<TokenWithRange>>) -> Option<
    Seq<TokenWithRange>,
> {
    match o {
        Some(rest) => Some(done + rest),
        None => None,
    }
}

/// Every token of `out` has the range of some token of `src`.
pub open spec fn ranges_from(out: Seq<TokenWithRange>, src: Seq<TokenWithRange>) -> bool {
    forall|i: int| 0 <= i < out.len() ==> range_of_some_token(src, #[trigger] out[i].range)
}

/// Replaces the names of the macros defined so far with their bodies.
fn substitute(
    tokens: &Vec<TokenWithRange>,
    from: usize,
    to: usize,
    names: &Vec<String>,
    bodies: &Vec<Vec<TokenWithRange>>,
    output: &mut Vec<TokenWithRange>,
)
    requires
        from <= to <= tokens.len(),
        names.len() == bodies.len(),
        ranges_from(old(output)@, tokens@),
        forall|k: int| 0 <= k < bodies.len() ==> ranges_from(#[trigger] bodies@[k]@, tokens@),
        names_distinct(names@),
    ensures
        ranges_from(final(output)@, tokens@),
        final(output)@ == old(output)@ + substitute_range(
            tokens@,
            from as int,
            to as int,
            names_view(names@),
            bodies_view(bodies@),
        ),
{
    let ghost out0 = output@;
    let ghost nv = names_view(names@);
    let ghost bv = bodies_view(bodies@);
    let mut i = from;
    proof {
        assert(out0 + substitute_range(tokens@, from as int, from as int, nv, bv) =~= out0);
    }
    while i < to
        invariant
            from <= i <= to <= tokens.len(),
            names.len() == bodies.len(),
            ranges_from(output@, tokens@),
            forall|k: int| 0 <= k < bodies.len() ==> ranges_from(#[trigger] bodies@[k]@, tokens@),
            names_distinct(names@),
            nv == names_view(names@),
            bv == bodies_view(bodies@),
            output@ == out0 + substitute_range(tokens@, from as int, i as int, nv, bv),
        decreases to - i,
    {
        let ghost before = output@;
        let found = match &tokens[i].token {
            Token::Identifier(id) => find_macro(names, id),
            _ => None,
        };
        match found {
            Some(k) => {
                proof {
                    let id = tokens@[i as int].token->Identifier_0@;
                    assert(nv[k as int] == id);
                    let c = choose|c: int| 0 <= c < nv.len() && nv[c] == id;
                    assert(c == k);
                    assert(substitute_one(tokens@[i as int], nv, bv) == bodies@[k as int]@);
                }
                let mut j: usize = 0;
                while j < bodies[k].len()
                    invariant
                        k < bodies.len(),
                        0 <= j <= bodies[k as int].len(),
                        ranges_from(output@, tokens@),
                        ranges_from(bodies@[k as int]@, tokens@),
                        output@ == before + bodies@[k as int]@.subrange(0, j as int),
                    decreases bodies[k as int].len() - j,
                {
                    let t = clone_token_with_range(&bodies[k][j]);
                    assert(range_of_some_token(tokens@, bodies@[k as int]@[j as int].range));
                    output.push(t);
                    j = j + 1;
                    assert(output@ =~= before + bodies@[k as int]@.subrange(0, j as int));
                }
                assert(bodies@[k as int]@.subrange(0, j as int) =~= bodies@[k as int]@);
            },
            None => {
                proof {
                    if let Token::Identifier(id) = tokens@[i as int].token {
                        assert(!(exists|c: int| 0 <= c < nv.len() && nv[c] == id@));
                    }
                }
                let t = clone_token_with_range(&tokens[i]);
                assert(tokens@[i as int].range == t.range);
                output.push(t);
            },
        }
        proof {
            assert(output@ =~= out0 + substitute_range(tokens@, from as int, i + 1, nv, bv));
        }
        i = i + 1;
    }
}

/// Without a definition, the tokens stand for themselves.
proof fn lemma_expand_plain(ts: Seq<TokenWithRange>, i: int)
    requires
        0 <= i <= ts.len(),
        forall|k: int| 0 <= k < ts.len() ==> !is_define((#[trigger] ts[k]).token),
    ensures
        expand_from(ts, i, seq![], seq![]) == Some(ts.subrange(i, ts.len() as int)),
    decreases ts.len() - i,
{
    if i < ts.len() {
        lemma_expand_plain(ts, i + 1);
        assert(ts.subrange(i, ts.len() as int) =~= seq![ts[i]] + ts.subrange(i + 1, ts.len() as int));
        assert(substitute_one(ts[i], seq![], seq![]) == seq![ts[i]]);
    } else {
        assert(ts.subrange(i, ts.len() as int) =~= Seq::<TokenWithRange>::empty());
    }
}

/// No name is defined twice.
pub open spec fn names_distinct(names: Seq<String>) -> bool {
    forall|a: int, b: int| 0 <= a < b < names.len() ==> names[a]@ != names[b]@
}

/// Expands the macros of an ANRE token stream.
///
/// `define NAME (...)` defines a macro whose body is the parenthesized
/// token group; the definition itself produces no token, and each later
/// use of `NAME` as a name is replaced by the body. A stream without a
/// definition is returned unchanged.
pub fn expand(tokens: Vec<TokenWithRange>) -> (r: Result<Vec<TokenWithRange>, AnreError>)
    ensures
        (forall|i: int| 0 <= i < tokens.len() ==> !is_define((#[trigger] tokens@[i]).token))
            ==> r == Ok::<Vec<TokenWithRange>, AnreError>(tokens),
        r matches Err(AnreError::MessageWithRange(_, range)) ==> range_of_some_token(
            tokens@,
            range,
        ),
        r matches Err(e) ==> !(e is MessageWithPosition),
        r matches Ok(out) ==> ranges_from(out@, tokens@),
        match expand_from(tokens@, 0, seq![], seq![]) {
            Some(out) => r matches Ok(v) && v@ == out,
            None => r is Err,
        },
        r matches Err(e) ==> error_view(e) == expand_error(tokens@, 0, seq![], seq![]),
{
    let mut any_define = false;
    let mut k: usize = 0;
    while k < tokens.len()
        invariant
            0 <= k <= tokens.len(),
            !any_define ==> forall|j: int| 0 <= j < k ==> !is_define((#[trigger] tokens@[j]).token),
            any_define ==> exists|j: int| 0 <= j < k && is_define((#[trigger] tokens@[j]).token),
        decreases tokens.len() - k,
    {
        if is_define_token(&tokens[k].token) {
            any_define = true;
        }
        k = k + 1;
    }
    if !any_define {
        proof {
            assert forall|i: int| 0 <= i < tokens@.len() implies range_of_some_token(
                tokens@,
                #[trigger] tokens@[i].range,
            ) by {}
            lemma_expand_plain(tokens@, 0);
            assert(tokens@.subrange(0, tokens@.len() as int) =~= tokens@);
        }
        return Ok(tokens);
    }
    let ghost ts = tokens@;
    let mut names: Vec<String> = Vec::new();
    let mut bodies: Vec<Vec<TokenWithRange>> = Vec::new();
    let mut output: Vec<TokenWithRange> = Vec::new();
    let mut i: usize = 0;
    proof {
        assert(names_view(names@) =~= Seq::<Seq<char>>::empty());
        assert(bodies_view(bodies@) =~= Seq::<Seq<TokenWithRange>>::empty());
        if let Some(out) = expand_from(ts, 0, seq![], seq![]) {
            assert(output@ + out =~= out);
        }
    }
    while i < tokens.len()
        invariant
            0 <= i <= tokens.len(),
            ts == tokens@,
            names.len() == bodies.len(),
            exists|j: int| 0 <= j < tokens.len() && is_define((#[trigger] tokens@[j]).token),
            ranges_from(output@, tokens@),
            forall|k: int| 0 <= k < bodies.len() ==> ranges_from(#[trigger] bodies@[k]@, tokens@),
            names_distinct(names@),
            expand_from(ts, 0, seq![], seq![]) == prepend_expanded(
                output@,
                expand_from(ts, i as int, names_view(names@), bodies_view(bodies@)),
            ),
            expand_error(ts, 0, seq![], seq![]) == expand_error(
                ts,
                i as int,
                names_view(names@),
                bodies_view(bodies@),
            ),
        decreases tokens.len() - i,
    {
        let ghost nv = names_view(names@);
        let ghost bv = bodies_view(bodies@);
        let ghost before = output@;
        if is_define_token(&tokens[i].token) {
            // the name
            if i + 1 >= tokens.len() {
                return Err(
                    AnreError::UnexpectedEndOfDocument(
                        string_from_str("Expected a macro name after \"define\"."),
                    ),
                );
            }
            let name = match &tokens[i + 1].token {
                Token::Identifier(id) => id.clone(),
                _ => {
                    let range = tokens[i + 1].range;
                    assert(tokens@[i + 1].range == range);
                    return Err(
                        AnreError::MessageWithRange(
                            string_from_str("Expected a macro name after \"define\"."),
                            range,
                        ),
                    );
                },
            };
            // the body, a balanced group of parentheses
            if i + 2 >= tokens.len() {
                return Err(
                    AnreError::UnexpectedEndOfDocument(
                        string_from_str("Expected the body of a macro."),
                    ),
                );
            }
            match &tokens[i + 2].token {
                Token::ParenthesisOpen => {},
                _ => {
                    let range = tokens[i + 2].range;
                    assert(tokens@[i + 2].range == range);
                    return Err(
                        AnreError::MessageWithRange(
                            string_from_str("Expected a parenthesized macro body."),
                            range,
                        ),
                    );
                },
            }
            let mut depth: usize = 0;
            let mut end = i + 2;
            let mut closed = false;
            while end < tokens.len()
                invariant_except_break
                    !closed,
                    closing_at(ts, i + 2, 0) == closing_at(ts, end as int, depth as nat),
                invariant
                    i + 2 <= end <= tokens.len(),
                    closed ==> end < tokens.len(),
                    depth <= end,
                    ts == tokens@,
                ensures
                    closed ==> closing_at(ts, i + 2, 0) == Some(end as int),
                    !closed ==> closing_at(ts, i + 2, 0) is None,
                decreases tokens.len() - end,
            {
                match &tokens[end].token {
                    Token::ParenthesisOpen => {
                        depth = depth + 1;
                    },
                    Token::ParenthesisClose => {
                        if depth <= 1 {
                            closed = true;
                            break;
                        }
                        depth = depth - 1;
                    },
                    _ => {},
                }
                end = end + 1;
            }
            if !closed {
                return Err(
                    AnreError::UnexpectedEndOfDocument(
                        string_from_str("Incomplete macro body."),
                    ),
                );
            }
            let duplicate = find_macro(&names, &name);
            if duplicate.is_some() {
                proof {
                    let k = duplicate->Some_0 as int;
                    assert(nv[k] == name@);
                }
                let range = tokens[i + 1].range;
                assert(tokens@[i + 1].range == range);
                return Err(
                    AnreError::MessageWithRange(
                        message_with_text("The macro \"", name.as_str(), "\" is already defined."),
                        range,
                    ),
                );
            }
            let mut body: Vec<TokenWithRange> = Vec::new();
            substitute(&tokens, i + 2, end + 1, &names, &bodies, &mut body);
            proof {
                assert(body@ =~= substitute_range(ts, i + 2, end + 1, nv, bv));
            }
            let ghost old_names = names@;
            names.push(name);
            bodies.push(body);
            proof {
                assert(names_view(names@) =~= nv.push(ts[i + 1].token->Identifier_0@));
                assert(bodies_view(bodies@) =~= bv.push(
                    substitute_range(ts, i + 2, end + 1, nv, bv),
                ));
                assert forall|a: int, b: int| 0 <= a < b < names@.len() implies names@[a]@
                    != names@[b]@ by {
                    if b == names@.len() - 1 {
                        assert(names@[a] == old_names[a]);
                    } else {
                        assert(names@[a] == old_names[a]);
                        assert(names@[b] == old_names[b]);
                    }
                }
            }
            i = end + 1;
        } else {
            substitute(&tokens, i, i + 1, &names, &bodies, &mut output);
            proof {
                assert(substitute_range(ts, i as int, i as int, nv, bv) =~= Seq::<TokenWithRange>::empty());
                assert(substitute_range(ts, i as int, i + 1, nv, bv) =~= substitute_one(ts[i as int], nv, bv));
                if let Some(rest) = expand_from(ts, i + 1, nv, bv) {
                    assert(before + (substitute_one(ts[i as int], nv, bv) + rest) =~= output@ + rest);
                }
            }
            i = i + 1;
        }
    }
    proof {
        assert(output@ + Seq::<TokenWithRange>::empty() =~= output@);
    }
    Ok(output)
}

} // verus!

verus! {

// The expansion reads names by their characters alone: token sequences
// that agree expand to token sequences that agree.

/// The bodies agree one by one.
pub open spec fn bodies_agree(x: Seq<Seq<TokenWithRange>>, y: Seq<Seq<TokenWithRange>>) -> bool {
    &&& x.len() == y.len()
    &&& forall|k: int| 0 <= k < x.len() ==> tokens_agree(#[trigger] x[k], y[k])
}

/// Both expansions are refused, or both give tokens that agree.
pub open spec fn outcomes_agree(x: Option<Seq<TokenWithRange>>, y: Option<Seq<TokenWithRange>>) -> bool {
    match x {
        Some(p) => y matches Some(q) && tokens_agree(p, q),
        None => y is None,
    }
}

proof fn lemma_agree_concat(
    a1: Seq<TokenWithRange>,
    b1: Seq<TokenWithRange>,
    a2: Seq<TokenWithRange>,
    b2: Seq<TokenWithRange>,
)
    requires
        tokens_agree(a1, b1),
        tokens_agree(a2, b2),
    ensures
        tokens_agree(a1 + a2, b1 + b2),
{
    assert forall|k: int| 0 <= k < (a1 + a2).len() implies token_eq(
        (#[trigger] (a1 + a2)[k]).token,
        (b1 + b2)[k].token,
    ) && (a1 + a2)[k].range == (b1 + b2)[k].range by {
        if k < a1.len() {
            assert((a1 + a2)[k] == a1[k]);
            assert((b1 + b2)[k] == b1[k]);
        } else {
            assert((a1 + a2)[k] == a2[k - a1.len()]);
            assert((b1 + b2)[k] == b2[k - b1.len()]);
        }
    }
}

proof fn lemma_substitute_one_agree(
    ta: TokenWithRange,
    tb: TokenWithRange,
    names: Seq<Seq<char>>,
    ba: Seq<Seq<TokenWithRange>>,
    bb: Seq<Seq<TokenWithRange>>,
)
    requires
        token_eq(ta.token, tb.token),
        ta.range == tb.range,
        bodies_agree(ba, bb),
        names.len() == ba.len(),
    ensures
        tokens_agree(substitute_one(ta, names, ba), substitute_one(tb, names, bb)),
{
    if let Token::Identifier(id) = ta.token {
        if exists|k: int| 0 <= k < names.len() && names[k] == id@ {
            let k = choose|k: int| 0 <= k < names.len() && names[k] == id@;
            assert(tokens_agree(ba[k], bb[k]));
        }
    }
}

proof fn lemma_substitute_range_agree(
    a: Seq<TokenWithRange>,
    b: Seq<TokenWithRange>,
    from: int,
    to: int,
    names: Seq<Seq<char>>,
    ba: Seq<Seq<TokenWithRange>>,
    bb: Seq<Seq<TokenWithRange>>,
)
    requires
        tokens_agree(a, b),
        bodies_agree(ba, bb),
        names.len() == ba.len(),
        0 <= from,
        to <= a.len(),
    ensures
        tokens_agree(
            substitute_range(a, from, to, names, ba),
            substitute_range(b, from, to, names, bb),
        ),
    decreases to - from,
{
    if from < to {
        lemma_substitute_range_agree(a, b, from, to - 1, names, ba, bb);
        assert(token_eq(a[to - 1].token, b[to - 1].token));
        lemma_substitute_one_agree(a[to - 1], b[to - 1], names, ba, bb);
        lemma_agree_concat(
            substitute_range(a, from, to - 1, names, ba),
            substitute_range(b, from, to - 1, names, bb),
            substitute_one(a[to - 1], names, ba),
            substitute_one(b[to - 1], names, bb),
        );
    }
}

proof fn lemma_closing_agree(a: Seq<TokenWithRange>, b: Seq<TokenWithRange>, k: int, depth: nat)
    requires
        tokens_agree(a, b),
    ensures
        closing_at(a, k, depth) == closing_at(b, k, depth),
    decreases a.len() - k,
{
    if 0 <= k < a.len() {
        assert(token_eq(a[k].token, b[k].token));
        if a[k].token is ParenthesisOpen {
            lemma_closing_agree(a, b, k + 1, depth + 1);
        } else if a[k].token is ParenthesisClose {
            if depth > 1 {
                lemma_closing_agree(a, b, k + 1, (depth - 1) as nat);
            }
        } else {
            lemma_closing_agree(a, b, k + 1, depth);
        }
    }
}

proof fn lemma_expand_agree(
    a: Seq<TokenWithRange>,
    b: Seq<TokenWithRange>,
    i: int,
    names: Seq<Seq<char>>,
    ba: Seq<Seq<TokenWithRange>>,
    bb: Seq<Seq<TokenWithRange>>,
)
    requires
        tokens_agree(a, b),
        bodies_agree(ba, bb),
        names.len() == ba.len(),
    ensures
        outcomes_agree(expand_from(a, i, names, ba), expand_from(b, i, names, bb)),
    decreases a.len() - i,
{
    if 0 <= i < a.len() {
        assert(token_eq(a[i].token, b[i].token));
        if i + 1 < a.len() {
            assert(token_eq(a[i + 1].token, b[i + 1].token));
        }
        if i + 2 < a.len() {
            assert(token_eq(a[i + 2].token, b[i + 2].token));
        }
        if is_define(a[i].token) {
            if i + 2 < a.len() && a[i + 1].token is Identifier && a[i + 2].token is ParenthesisOpen {
                let name = a[i + 1].token->Identifier_0@;
                lemma_closing_agree(a, b, i + 2, 0);
                if let Some(end) = closing_at(a, i + 2, 0) {
                    if i + 2 <= end < a.len() && !names.contains(name) {
                        let xa = substitute_range(a, i + 2, end + 1, names, ba);
                        let xb = substitute_range(b, i + 2, end + 1, names, bb);
                        lemma_substitute_range_agree(a, b, i + 2, end + 1, names, ba, bb);
                        assert(bodies_agree(ba.push(xa), bb.push(xb))) by {
                            assert forall|k: int| 0 <= k < ba.push(xa).len() implies tokens_agree(
                                #[trigger] ba.push(xa)[k],
                                bb.push(xb)[k],
                            ) by {
                                if k < ba.len() {
                                    assert(tokens_agree(ba[k], bb[k]));
                                }
                            }
                        }
                        lemma_expand_agree(a, b, end + 1, names.push(name), ba.push(xa), bb.push(xb));
                    }
                }
            }
        } else {
            lemma_expand_agree(a, b, i + 1, names, ba, bb);
            lemma_substitute_one_agree(a[i], b[i], names, ba, bb);
            if let Some(ra) = expand_from(a, i + 1, names, ba) {
                let rb = expand_from(b, i + 1, names, bb)->0;
                lemma_agree_concat(substitute_one(a[i], names, ba), substitute_one(b[i], names, bb), ra, rb);
            }
        }
    }
}

/// Token sequences that agree expand alike: both are refused, or both
/// give token sequences that agree.
pub proof fn lemma_expansion_agree(a: Seq<TokenWithRange>, b: Seq<TokenWithRange>)
    requires
        tokens_agree(a, b),
    ensures
        outcomes_agree(expand_from(a, 0, seq![], seq![]), expand_from(b, 0, seq![], seq![])),
{
    lemma_expand_agree(a, b, 0, seq![], seq![], seq![]);
}

} // verus!
