use vstd::prelude::*;

verus! {

/// A whole pattern: one expression.
#[derive(Debug, PartialEq)]
pub struct Program {
    pub expression: Expression,
}

#[derive(Debug, PartialEq)]
pub enum Expression {
    Literal(Literal),
    BackReference(BackReference),
    /// A sequence of patterns. Unlike the group of traditional regular
    /// expressions it does not capture; it only groups patterns.
    Group(Vec<Expression>),
    FunctionCall(Box<FunctionCall>),
    /// Disjunction: the left pattern, or else the right one.
    Or(Box<Expression>, Box<Expression>),
}

/// A function applied to arguments, the first of which is usually the
/// pattern it operates on.
#[derive(Debug, PartialEq)]
pub struct FunctionCall {
    pub name: FunctionName,
    pub args: Vec<FunctionCallArg>,
}

#[derive(Debug, PartialEq)]
pub enum FunctionCallArg {
    Number(usize),
    Identifier(String),
    Expression(Expression),
}

/// A back reference to a capture group, by its index or by its name.
#[derive(Debug, PartialEq)]
pub enum BackReference {
    Index(usize),
    Name(String),
}

#[derive(Debug, PartialEq)]
pub enum Literal {
    /// Any character except line feed and carriage return.
    AnyChar,
    Char(char),
    String(String),
    CharSet(CharSet),
    PresetCharSet(PresetCharSetName),
}

#[derive(Debug, PartialEq)]
pub struct CharSet {
    pub negative: bool,
    pub elements: Vec<CharSetElement>,
}

#[derive(Debug, PartialEq)]
pub enum CharSetElement {
    Char(char),
    CharRange(CharRange),
    /// Only positive preset character sets may stand in a character set.
    PresetCharSet(PresetCharSetName),
    /// Only positive character sets may stand in a character set.
    CharSet(Box<CharSet>),
}

#[derive(Debug, PartialEq, Eq, Clone, Copy, Structural)]
pub struct CharRange {
    pub start: char,
    pub end_inclusive: char,
}

#[derive(Debug, PartialEq, Eq, Clone, Copy, Structural)]
pub enum PresetCharSetName {
    CharWord,
    CharNotWord,
    CharDigit,
    CharNotDigit,
    CharSpace,
    CharNotSpace,
}

#[derive(Debug, PartialEq, Eq, Clone, Copy, Structural)]
pub enum FunctionName {
    // Greedy quantifiers
    Optional,
    OneOrMore,
    ZeroOrMore,
    Repeat,
    RepeatRange,
    RepeatFrom,
    // Lazy quantifiers
    LazyOptional,
    LazyOneOrMore,
    LazyZeroOrMore,
    LazyRepeat,
    LazyRepeatRange,
    LazyRepeatFrom,
    // Boundary assertions
    IsStart,
    IsEnd,
    IsBound,
    IsNotBound,
    // Look-around assertions
    IsBefore,
    IsAfter,
    IsNotBefore,
    IsNotAfter,
    // Capturing
    Index,
    Name,
}


/// An expression as mathematical data: sequences in place of vectors and
/// character sequences in place of strings.
pub enum ExpressionView {
    Literal(LiteralView),
    BackReference(BackReferenceView),
    Group(Seq<ExpressionView>),
    FunctionCall(FunctionName, Seq<ArgView>),
    Or(Box<ExpressionView>, Box<ExpressionView>),
}

/// A function call argument as mathematical data.
pub enum ArgView {
    Number(usize),
    Identifier(Seq<char>),
    Expression(ExpressionView),
}

/// A back reference as mathematical data.
pub enum BackReferenceView {
    Index(usize),
    Name(Seq<char>),
}

/// A literal as mathematical data.
pub enum LiteralView {
    AnyChar,
    Char(char),
    String(Seq<char>),
    CharSet(CharSetView),
    PresetCharSet(PresetCharSetName),
}

/// A character set as mathematical data.
pub struct CharSetView {
    pub negative: bool,
    pub elements: Seq<CharSetElementView>,
}

/// An element of a character set as mathematical data.
pub enum CharSetElementView {
    Char(char),
    CharRange(CharRange),
    PresetCharSet(PresetCharSetName),
    CharSet(Box<CharSetView>),
}

/// The view of an expression.
pub open spec fn expression_view(e: Expression) -> ExpressionView
    decreases e, 0nat,
{
    match e {
        Expression::Literal(l) => ExpressionView::Literal(literal_view(l)),
        Expression::BackReference(BackReference::Index(i)) => ExpressionView::BackReference(
            BackReferenceView::Index(i),
        ),
        Expression::BackReference(BackReference::Name(n)) => ExpressionView::BackReference(
            BackReferenceView::Name(n@),
        ),
        Expression::Group(es) => ExpressionView::Group(expressions_view(es@, es@.len() as int)),
        Expression::FunctionCall(c) => ExpressionView::FunctionCall(
            c.name,
            args_view(c.args@, c.args@.len() as int),
        ),
        Expression::Or(l, r) => ExpressionView::Or(
            Box::new(expression_view(*l)),
            Box::new(expression_view(*r)),
        ),
    }
}

/// The views of the first `k` expressions.
pub open spec fn expressions_view(es: Seq<Expression>, k: int) -> Seq<ExpressionView>
    decreases es, if k > 0 { k as nat } else { 0nat },
{
    if k <= 0 || k > es.len() {
        seq![]
    } else {
        expressions_view(es, k - 1).push(expression_view(es[k - 1]))
    }
}

/// The views of the first `k` arguments.
pub open spec fn args_view(args: Seq<FunctionCallArg>, k: int) -> Seq<ArgView>
    decreases args, if k > 0 { k as nat } else { 0nat },
{
    if k <= 0 || k > args.len() {
        seq![]
    } else {
        args_view(args, k - 1).push(arg_view(args[k - 1]))
    }
}

/// The view of an argument.
pub open spec fn arg_view(a: FunctionCallArg) -> ArgView
    decreases a, 0nat,
{
    match a {
        FunctionCallArg::Number(n) => ArgView::Number(n),
        FunctionCallArg::Identifier(s) => ArgView::Identifier(s@),
        FunctionCallArg::Expression(e) => ArgView::Expression(expression_view(e)),
    }
}

/// The view of a literal.
pub open spec fn literal_view(l: Literal) -> LiteralView {
    match l {
        Literal::AnyChar => LiteralView::AnyChar,
        Literal::Char(c) => LiteralView::Char(c),
        Literal::String(s) => LiteralView::String(s@),
        Literal::CharSet(set) => LiteralView::CharSet(charset_view(set)),
        Literal::PresetCharSet(n) => LiteralView::PresetCharSet(n),
    }
}

/// The view of a character set.
pub open spec fn charset_view(set: CharSet) -> CharSetView
    decreases set, 0nat,
{
    CharSetView {
        negative: set.negative,
        elements: elements_view(set.elements@, set.elements@.len() as int),
    }
}

/// The views of the first `k` elements of a character set.
pub open spec fn elements_view(els: Seq<CharSetElement>, k: int) -> Seq<CharSetElementView>
    decreases els, if k > 0 { k as nat } else { 0nat },
{
    if k <= 0 || k > els.len() {
        seq![]
    } else {
        elements_view(els, k - 1).push(element_view(els[k - 1]))
    }
}

/// The view of an element of a character set.
pub open spec fn element_view(el: CharSetElement) -> CharSetElementView
    decreases el, 0nat,
{
    match el {
        CharSetElement::Char(c) => CharSetElementView::Char(c),
        CharSetElement::CharRange(r) => CharSetElementView::CharRange(r),
        CharSetElement::PresetCharSet(n) => CharSetElementView::PresetCharSet(n),
        CharSetElement::CharSet(inner) => CharSetElementView::CharSet(Box::new(charset_view(*inner))),
    }
}

/// The views of the first `k` expressions depend only on those `k`.
pub proof fn lemma_expressions_view_prefix(a: Seq<Expression>, b: Seq<Expression>, k: int)
    requires
        0 <= k <= a.len(),
        k <= b.len(),
        a.subrange(0, k) == b.subrange(0, k),
    ensures
        expressions_view(a, k) == expressions_view(b, k),
    decreases k,
{
    if k > 0 {
        let sa = a.subrange(0, k);
        let sb = b.subrange(0, k);
        assert forall|i: int| 0 <= i < k implies a[i] == b[i] by {
            assert(sa[i] == a[i]);
            assert(sb[i] == b[i]);
        }
        assert(a.subrange(0, k - 1) =~= b.subrange(0, k - 1));
        lemma_expressions_view_prefix(a, b, k - 1);
    }
}

/// The views of the first `k` elements depend only on those `k`.
pub proof fn lemma_elements_view_prefix(a: Seq<CharSetElement>, b: Seq<CharSetElement>, k: int)
    requires
        0 <= k <= a.len(),
        k <= b.len(),
        a.subrange(0, k) == b.subrange(0, k),
    ensures
        elements_view(a, k) == elements_view(b, k),
    decreases k,
{
    if k > 0 {
        let sa = a.subrange(0, k);
        let sb = b.subrange(0, k);
        assert forall|i: int| 0 <= i < k implies a[i] == b[i] by {
            assert(sa[i] == a[i]);
            assert(sb[i] == b[i]);
        }
        assert(a.subrange(0, k - 1) =~= b.subrange(0, k - 1));
        lemma_elements_view_prefix(a, b, k - 1);
    }
}

/// The views of a vector after a push.
pub proof fn lemma_expressions_view_push(s: Seq<Expression>, e: Expression)
    ensures
        expressions_view(s.push(e), s.len() as int + 1) == expressions_view(s, s.len() as int).push(
            expression_view(e),
        ),
{
    assert(s.push(e).subrange(0, s.len() as int) =~= s.subrange(0, s.len() as int));
    lemma_expressions_view_prefix(s.push(e), s, s.len() as int);
}

/// The views of the elements after a push.
pub proof fn lemma_elements_view_push(s: Seq<CharSetElement>, e: CharSetElement)
    ensures
        elements_view(s.push(e), s.len() as int + 1) == elements_view(s, s.len() as int).push(element_view(e)),
{
    assert(s.push(e).subrange(0, s.len() as int) =~= s.subrange(0, s.len() as int));
    lemma_elements_view_prefix(s.push(e), s, s.len() as int);
}

/// The views of the first `k` arguments depend only on those `k`.
pub proof fn lemma_args_view_prefix(a: Seq<FunctionCallArg>, b: Seq<FunctionCallArg>, k: int)
    requires
        0 <= k <= a.len(),
        k <= b.len(),
        a.subrange(0, k) == b.subrange(0, k),
    ensures
        args_view(a, k) == args_view(b, k),
    decreases k,
{
    if k > 0 {
        let sa = a.subrange(0, k);
        let sb = b.subrange(0, k);
        assert forall|i: int| 0 <= i < k implies a[i] == b[i] by {
            assert(sa[i] == a[i]);
            assert(sb[i] == b[i]);
        }
        assert(a.subrange(0, k - 1) =~= b.subrange(0, k - 1));
        lemma_args_view_prefix(a, b, k - 1);
    }
}

/// The views of the arguments after a push.
pub proof fn lemma_args_view_push(s: Seq<FunctionCallArg>, a: FunctionCallArg)
    ensures
        args_view(s.push(a), s.len() as int + 1) == args_view(s, s.len() as int).push(arg_view(a)),
{
    assert(s.push(a).subrange(0, s.len() as int) =~= s.subrange(0, s.len() as int));
    lemma_args_view_prefix(s.push(a), s, s.len() as int);
}

/// The views of one, two or three arguments.
pub proof fn lemma_args_view_small(args: Seq<FunctionCallArg>)
    ensures
        args.len() == 0 ==> args_view(args, 0) == Seq::<ArgView>::empty(),
        args.len() == 1 ==> args_view(args, 1) == seq![arg_view(args[0])],
        args.len() == 2 ==> args_view(args, 2) == seq![arg_view(args[0]), arg_view(args[1])],
        args.len() == 3 ==> args_view(args, 3) == seq![arg_view(args[0]), arg_view(args[1]), arg_view(args[2])],
{
    reveal_with_fuel(args_view, 4);
    assert(args_view(args, 0) =~= Seq::<ArgView>::empty());
    if args.len() >= 1 {
        assert(args_view(args, 1) =~= seq![arg_view(args[0])]);
    }
    if args.len() >= 2 {
        assert(args_view(args, 2) =~= seq![arg_view(args[0]), arg_view(args[1])]);
    }
    if args.len() >= 3 {
        assert(args_view(args, 3) =~= seq![arg_view(args[0]), arg_view(args[1]), arg_view(args[2])]);
    }
}

/// The views of the expressions, one by one.
pub proof fn lemma_expressions_view_pointwise(s: Seq<Expression>, k: int)
    requires
        0 <= k <= s.len(),
    ensures
        expressions_view(s, k).len() == k,
        forall|i: int| 0 <= i < k ==> #[trigger] expressions_view(s, k)[i] == expression_view(s[i]),
    decreases k,
{
    if k > 0 {
        lemma_expressions_view_pointwise(s, k - 1);
    }
}

/// The views of the elements, one by one.
pub proof fn lemma_elements_view_pointwise(s: Seq<CharSetElement>, k: int)
    requires
        0 <= k <= s.len(),
    ensures
        elements_view(s, k).len() == k,
        forall|i: int| 0 <= i < k ==> #[trigger] elements_view(s, k)[i] == element_view(s[i]),
    decreases k,
{
    if k > 0 {
        lemma_elements_view_pointwise(s, k - 1);
    }
}

/// The views of the arguments, one by one.
pub proof fn lemma_args_view_pointwise(s: Seq<FunctionCallArg>, k: int)
    requires
        0 <= k <= s.len(),
    ensures
        args_view(s, k).len() == k,
        forall|i: int| 0 <= i < k ==> #[trigger] args_view(s, k)[i] == arg_view(s[i]),
    decreases k,
{
    if k > 0 {
        lemma_args_view_pointwise(s, k - 1);
    }
}

impl View for Expression {
    type V = ExpressionView;

    open spec fn view(&self) -> ExpressionView {
        expression_view(*self)
    }
}

impl View for Program {
    type V = ExpressionView;

    open spec fn view(&self) -> ExpressionView {
        expression_view(self.expression)
    }
}

} // verus!
