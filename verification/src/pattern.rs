//! The pattern parser and the bracket/charset parser it shares.
//!
//! A pattern segment may hold metacharacters: it is scanned left to right,
//! and at each position the grammar tries, in fixed order, a bracket
//! expression `[...]` or its inversion `[!...]`, a two-branch alternation
//! `{a,b}`, the single-character wildcard `?`, the wildcard `*`, and
//! otherwise takes the longest run up to the next such opener as a literal.
//! Bracket and alternation bodies run to the first closing delimiter; an
//! unbalanced delimiter or an empty class body fails the whole parse.

use vstd::prelude::*;
use vstd::string::StrSliceExecFns;

use crate::segment::ParseError;
use crate::segment::segments_of;
use crate::segment::split_segments;

verus! {

/// One element of a bracket body, as a value.
#[verifier::ext_equal]
pub enum BracketItemView {
    /// Explicitly enumerated characters.
    Charset(Seq<char>),
    /// An inclusive range between two alphanumeric endpoints.
    Range(char, char),
}

/// One parsed pattern value, as a value.
#[verifier::ext_equal]
pub enum PatternView {
    /// Matches exactly one arbitrary character.
    QuestionMark,
    /// Matches zero or more arbitrary characters.
    Wildcard,
    /// The union of the listed bracket elements.
    Bracket(Seq<BracketItemView>),
    /// The complement of the listed bracket elements.
    InvertedBracket(Seq<BracketItemView>),
    /// Exactly one of two literal branches.
    Alt(Seq<char>, Seq<char>),
    /// Exact text.
    Literal(Seq<char>),
}

/// One element of a bracket (character-class) body.
#[derive(Debug, Clone, PartialEq, Eq)]
pub enum BracketExpression {
    /// Explicitly enumerated characters.
    Charset(Vec<char>),
    /// An inclusive range between two alphanumeric endpoints.
    Range {
        /// The lower endpoint as written.
        from: char,
        /// The upper endpoint as written.
        to: char,
    },
}

impl View for BracketExpression {
    type V = BracketItemView;

    open spec fn view(&self) -> BracketItemView {
        match self {
            BracketExpression::Charset(cs) => BracketItemView::Charset(cs@),
            BracketExpression::Range { from, to } => BracketItemView::Range(*from, *to),
        }
    }
}

impl DeepView for BracketExpression {
    type V = BracketItemView;

    open spec fn deep_view(&self) -> BracketItemView {
        self.view()
    }
}

/// One pattern value of a parsed address pattern.
#[derive(Debug, Clone, PartialEq, Eq)]
pub enum AddressPattern {
    /// Matches exactly one arbitrary character.
    QuestionMark,
    /// Matches zero or more arbitrary characters.
    Wildcard,
    /// The union of the listed bracket elements.
    BracketExpression(Vec<BracketExpression>),
    /// The complement of the listed bracket elements.
    InvertedBracketExpression(Vec<BracketExpression>),
    /// Exactly one of two literal branches.
    Alt(String, String),
    /// Exact text.
    Literal(String),
}

impl View for AddressPattern {
    type V = PatternView;

    open spec fn view(&self) -> PatternView {
        match self {
            AddressPattern::QuestionMark => PatternView::QuestionMark,
            AddressPattern::Wildcard => PatternView::Wildcard,
            AddressPattern::BracketExpression(items) => PatternView::Bracket(items.deep_view()),
            AddressPattern::InvertedBracketExpression(items) => PatternView::InvertedBracket(
                items.deep_view(),
            ),
            AddressPattern::Alt(a, b) => PatternView::Alt(a@, b@),
            AddressPattern::Literal(t) => PatternView::Literal(t@),
        }
    }
}

impl DeepView for AddressPattern {
    type V = PatternView;

    open spec fn deep_view(&self) -> PatternView {
        self.view()
    }
}

/// ASCII letters and digits: the admissible endpoints of a range.
pub open spec fn is_alphanumeric(c: char) -> bool {
    (48 <= c as u32 && c as u32 <= 57) || (65 <= c as u32 && c as u32 <= 90) || (97 <= c as u32
        && c as u32 <= 122)
}

/// The characters that open a non-literal pattern token.
pub open spec fn is_token_opener(c: char) -> bool {
    c == '[' || c == '{' || c == '?' || c == '*'
}

/// First index of `c` in `s`, or `-1` when `s` does not hold it.
pub open spec fn find_char(s: Seq<char>, c: char) -> int
    decreases s.len(),
{
    if s.len() == 0 {
        -1
    } else if s[0] == c {
        0
    } else {
        let r = find_char(s.drop_first(), c);
        if r < 0 {
            -1
        } else {
            1 + r
        }
    }
}

/// A non-negative result points at the first occurrence; a negative one
/// means the character does not occur at all.
pub proof fn lemma_find_char(s: Seq<char>, c: char)
    ensures
        find_char(s, c) >= 0 ==> 0 <= find_char(s, c) < s.len() && s[find_char(s, c)] == c,
        find_char(s, c) < 0 ==> forall|i: int| 0 <= i < s.len() ==> s[i] != c,
        forall|i: int| 0 <= i < find_char(s, c) ==> s[i] != c,
    decreases s.len(),
{
    if s.len() > 0 && s[0] != c {
        lemma_find_char(s.drop_first(), c);
        assert forall|i: int|
            0 <= i < s.len() && (find_char(s, c) < 0 || i < find_char(s, c)) implies s[i] != c by {
            if i > 0 {
                assert(s.drop_first()[i - 1] == s[i]);
            }
        }
        if find_char(s.drop_first(), c) >= 0 {
            assert(s[find_char(s, c)] == s.drop_first()[find_char(s.drop_first(), c)]);
        }
    }
}

/// A position before which `c` does not occur, and at which it does (or the
/// input ends), determines `find_char` exactly.
pub proof fn lemma_find_char_exact(s: Seq<char>, c: char, n: int)
    requires
        0 <= n <= s.len(),
        forall|i: int| 0 <= i < n ==> s[i] != c,
        n < s.len() ==> s[n] == c,
    ensures
        find_char(s, c) == if n < s.len() {
            n
        } else {
            -1
        },
    decreases s.len(),
{
    if n > 0 {
        assert(s[0] != c);
        assert forall|i: int| 0 <= i < n - 1 implies s.drop_first()[i] != c by {
            assert(s.drop_first()[i] == s[i + 1]);
        }
        if n - 1 < s.drop_first().len() {
            assert(s.drop_first()[n - 1] == s[n]);
        }
        lemma_find_char_exact(s.drop_first(), c, n - 1);
    }
}

/// Length of the longest prefix of `s` free of token openers.
pub open spec fn literal_run(s: Seq<char>) -> nat
    decreases s.len(),
{
    if s.len() == 0 || is_token_opener(s[0]) {
        0
    } else {
        1 + literal_run(s.drop_first())
    }
}

/// The literal run is bounded, free of token openers, and maximal.
pub proof fn lemma_literal_run(s: Seq<char>)
    ensures
        literal_run(s) <= s.len(),
        forall|i: int| 0 <= i < literal_run(s) ==> !is_token_opener(#[trigger] s[i]),
        literal_run(s) < s.len() ==> is_token_opener(s[literal_run(s) as int]),
    decreases s.len(),
{
    if s.len() > 0 && !is_token_opener(s[0]) {
        lemma_literal_run(s.drop_first());
        assert forall|i: int| 0 <= i < literal_run(s) implies !is_token_opener(
            #[trigger] s[i],
        ) by {
            if i > 0 {
                assert(s.drop_first()[i - 1] == s[i]);
            }
        }
        if literal_run(s) < s.len() {
            assert(s.drop_first()[literal_run(s.drop_first()) as int] == s[literal_run(
                s,
            ) as int]);
        }
    }
}

/// A position before which no token opener occurs, and at which one does (or
/// the input ends), determines `literal_run` exactly.
pub proof fn lemma_literal_run_exact(s: Seq<char>, n: int)
    requires
        0 <= n <= s.len(),
        forall|i: int| 0 <= i < n ==> !is_token_opener(#[trigger] s[i]),
        n < s.len() ==> is_token_opener(s[n]),
    ensures
        literal_run(s) == n,
    decreases s.len(),
{
    if n > 0 {
        assert(!is_token_opener(s[0]));
        assert forall|i: int| 0 <= i < n - 1 implies !is_token_opener(
            #[trigger] s.drop_first()[i],
        ) by {
            assert(s.drop_first()[i] == s[i + 1]);
        }
        if n - 1 < s.drop_first().len() {
            assert(s.drop_first()[n - 1] == s[n]);
        }
        lemma_literal_run_exact(s.drop_first(), n - 1);
    }
}

/// The bracket-body grammar: at each position a range `x-y` between
/// alphanumeric endpoints is tried first; anything else makes the whole
/// remainder one trailing charset, never re-segmented. The empty body gives
/// no elements; callers demand at least one.
pub open spec fn spec_bracket_items(body: Seq<char>) -> Seq<BracketItemView>
    decreases body.len(),
{
    if body.len() == 0 {
        Seq::empty()
    } else if body.len() >= 3 && body[1] == '-' && is_alphanumeric(body[0]) && is_alphanumeric(
        body[2],
    ) {
        seq![BracketItemView::Range(body[0], body[2])] + spec_bracket_items(body.skip(3))
    } else {
        seq![BracketItemView::Charset(body)]
    }
}

/// The first pattern token of a non-empty segment remainder, with the number
/// of characters it consumes; `None` on a malformed bracket or alternation:
/// an unbalanced delimiter or an empty class body. A bracket opened with
/// `[!` whose inverted reading has an empty body is retried as a plain
/// bracket whose body starts at the `!`.
pub open spec fn head_token(rem: Seq<char>) -> Option<(PatternView, int)> {
    if rem.len() == 0 {
        None
    } else if rem[0] == '[' {
        if rem.len() >= 2 && rem[1] == '!' && find_char(rem.skip(2), ']') >= 1 {
            let j = find_char(rem.skip(2), ']');
            Some(
                (
                    PatternView::InvertedBracket(spec_bracket_items(rem.subrange(2, 2 + j))),
                    3 + j,
                ),
            )
        } else if find_char(rem.skip(1), ']') >= 1 {
            let j = find_char(rem.skip(1), ']');
            Some((PatternView::Bracket(spec_bracket_items(rem.subrange(1, 1 + j))), 2 + j))
        } else {
            None
        }
    } else if rem[0] == '{' {
        let c = find_char(rem.skip(1), ',');
        let r = find_char(rem.skip(1), '}');
        if c >= 0 && r >= 0 && c < r {
            Some((PatternView::Alt(rem.subrange(1, 1 + c), rem.subrange(2 + c, 1 + r)), 2 + r))
        } else {
            None
        }
    } else if rem[0] == '?' {
        Some((PatternView::QuestionMark, 1))
    } else if rem[0] == '*' {
        Some((PatternView::Wildcard, 1))
    } else {
        Some((PatternView::Literal(rem.take(literal_run(rem) as int)), literal_run(rem) as int))
    }
}

/// A recognized head token consumes at least one and at most all characters.
pub proof fn lemma_head_token(rem: Seq<char>)
    requires
        rem.len() > 0,
        head_token(rem) is Some,
    ensures
        1 <= head_token(rem).unwrap().1 <= rem.len(),
{
    if rem[0] == '[' {
        if rem.len() >= 2 && rem[1] == '!' && find_char(rem.skip(2), ']') >= 1 {
            lemma_find_char(rem.skip(2), ']');
        } else {
            lemma_find_char(rem.skip(1), ']');
        }
    } else if rem[0] == '{' {
        lemma_find_char(rem.skip(1), '}');
    } else if rem[0] == '?' || rem[0] == '*' {
    } else {
        lemma_literal_run(rem);
    }
}

/// Classify one pattern segment into its sequence of pattern values, taking
/// head tokens left to right until the segment is used up; `None` as soon as
/// one is malformed.
pub open spec fn spec_classify_segment(seg: Seq<char>) -> Option<Seq<PatternView>>
    decreases seg.len(),
{
    if seg.len() == 0 {
        Some(Seq::empty())
    } else {
        match head_token(seg) {
            None => None,
            Some(tok) => {
                proof {
                    lemma_head_token(seg);
                }
                match spec_classify_segment(seg.skip(tok.1)) {
                    None => None,
                    Some(rest) => Some(seq![tok.0] + rest),
                }
            },
        }
    }
}

/// Classify every segment and concatenate the results, failing if any
/// segment fails.
pub open spec fn classify_all(parts: Seq<Seq<char>>) -> Option<Seq<PatternView>>
    decreases parts.len(),
{
    if parts.len() == 0 {
        Some(Seq::empty())
    } else {
        match spec_classify_segment(parts[0]) {
            None => None,
            Some(first) => match classify_all(parts.drop_first()) {
                None => None,
                Some(rest) => Some(first + rest),
            },
        }
    }
}

/// What parsing a pattern means: segment the input under the lax pattern
/// grammar, then classify each segment in order.
pub open spec fn spec_parse_pattern(s: Seq<char>) -> Option<Seq<PatternView>> {
    match segments_of(s, false) {
        None => None,
        Some(parts) => classify_all(parts),
    }
}

/// Whether `c` is an ASCII letter or digit.
fn check_alphanumeric(c: char) -> (b: bool)
    ensures
        b == is_alphanumeric(c),
{
    let u = c as u32;
    (48 <= u && u <= 57) || (65 <= u && u <= 90) || (97 <= u && u <= 122)
}

/// Whether `c` opens a non-literal pattern token.
fn check_token_opener(c: char) -> (b: bool)
    ensures
        b == is_token_opener(c),
{
    c == '[' || c == '{' || c == '?' || c == '*'
}

/// First position at or after `from` holding `c`, if any.
fn find_from(seg: &str, from: usize, c: char) -> (r: Option<usize>)
    requires
        from <= seg@.len(),
    ensures
        match r {
            Some(j) => from <= j < seg@.len() && seg@[j as int] == c && find_char(
                seg@.skip(from as int),
                c,
            ) == j - from,
            None => find_char(seg@.skip(from as int), c) == -1,
        },
{
    let n = seg.unicode_len();
    let mut j = from;
    while j < n
        invariant
            from <= j <= n,
            n == seg@.len(),
            forall|k: int| from <= k < j ==> seg@[k] != c,
        decreases n - j,
    {
        if seg.get_char(j) == c {
            proof {
                assert forall|k: int| 0 <= k < j - from implies seg@.skip(from as int)[k] != c by {
                    assert(seg@.skip(from as int)[k] == seg@[from + k]);
                }
                assert(seg@.skip(from as int)[j - from] == seg@[j as int]);
                lemma_find_char_exact(seg@.skip(from as int), c, j - from);
            }
            return Some(j);
        }
        j = j + 1;
    }
    proof {
        assert forall|k: int| 0 <= k < seg@.skip(from as int).len() implies seg@.skip(
            from as int,
        )[k] != c by {
            assert(seg@.skip(from as int)[k] == seg@[from + k]);
        }
        lemma_find_char_exact(seg@.skip(from as int), c, seg@.skip(from as int).len() as int);
    }
    None
}

/// Parse the interior of a bracket body into its elements: ranges first,
/// then one trailing charset holding everything left.
fn parse_bracket_items(body: &str) -> (items: Vec<BracketExpression>)
    ensures
        items.deep_view() == spec_bracket_items(body@),
{
    let m = body.unicode_len();
    let mut items: Vec<BracketExpression> = Vec::new();
    let mut i: usize = 0;
    proof {
        assert(body@.skip(0) =~= body@);
        assert(items.deep_view() =~~= Seq::<BracketItemView>::empty());
        assert(items.deep_view() + spec_bracket_items(body@) =~~= spec_bracket_items(body@));
    }
    while i < m
        invariant
            i <= m,
            m == body@.len(),
            spec_bracket_items(body@) == items.deep_view() + spec_bracket_items(
                body@.skip(i as int),
            ),
        decreases m - i,
    {
        let ghost rem = body@.skip(i as int);
        proof {
            assert(rem.len() == m - i);
            if rem.len() >= 3 {
                assert(rem[0] == body@[i as int]);
                assert(rem[1] == body@[i as int + 1]);
                assert(rem[2] == body@[i as int + 2]);
            }
        }
        let mut is_range = false;
        if i + 1 < m && i + 2 < m {
            is_range = body.get_char(i + 1) == '-' && check_alphanumeric(body.get_char(i))
                && check_alphanumeric(body.get_char(i + 2));
        }
        if is_range {
            let ghost dv0 = items.deep_view();
            items.push(BracketExpression::Range { from: body.get_char(i), to: body.get_char(i + 2) });
            proof {
                assert(items.deep_view() =~~= dv0.push(BracketItemView::Range(rem[0], rem[2])));
                assert(rem.skip(3) =~= body@.skip(i as int + 3));
                assert(spec_bracket_items(rem) == seq![BracketItemView::Range(rem[0], rem[2])]
                    + spec_bracket_items(rem.skip(3)));
                assert(dv0 + (seq![BracketItemView::Range(rem[0], rem[2])] + spec_bracket_items(
                    rem.skip(3),
                )) =~~= items.deep_view() + spec_bracket_items(rem.skip(3)));
            }
            i = i + 3;
        } else {
            let mut cs: Vec<char> = Vec::new();
            let mut j = i;
            proof {
                assert(cs@ =~= body@.subrange(i as int, i as int));
            }
            while j < m
                invariant
                    i <= j <= m,
                    m == body@.len(),
                    cs@ == body@.subrange(i as int, j as int),
                decreases m - j,
            {
                cs.push(body.get_char(j));
                proof {
                    assert(cs@ =~= body@.subrange(i as int, j as int + 1));
                }
                j = j + 1;
            }
            let ghost dv0 = items.deep_view();
            items.push(BracketExpression::Charset(cs));
            proof {
                assert(body@.subrange(i as int, m as int) =~= rem);
                assert(spec_bracket_items(rem) == seq![BracketItemView::Charset(rem)]);
                assert(items.deep_view() =~~= dv0.push(BracketItemView::Charset(rem)));
                assert(body@.skip(m as int) =~= Seq::<char>::empty());
                assert(dv0 + seq![BracketItemView::Charset(rem)] =~~= items.deep_view()
                    + spec_bracket_items(body@.skip(m as int)));
            }
            i = m;
        }
    }
    proof {
        assert(body@.skip(m as int) =~= Seq::<char>::empty());
        assert(items.deep_view() + spec_bracket_items(body@.skip(m as int)) =~~= items.deep_view());
    }
    items
}

/// Try the inverted-bracket reading at the head of `seg[i..]`: `[!` followed
/// by a non-empty body and the closing `]`.
fn try_inverted_bracket(seg: &str, i: usize) -> (r: Option<(Vec<BracketExpression>, usize)>)
    requires
        i < seg@.len(),
        seg@[i as int] == '[',
    ensures
        ({
            let rem = seg@.skip(i as int);
            let guard = rem.len() >= 2 && rem[1] == '!' && find_char(rem.skip(2), ']') >= 1;
            match r {
                Some(p) => guard && p.0.deep_view() == spec_bracket_items(
                    rem.subrange(2, 2 + find_char(rem.skip(2), ']')),
                ) && p.1 == i + 3 + find_char(rem.skip(2), ']') && i < p.1 <= seg@.len(),
                None => !guard,
            }
        }),
{
    let ghost rem = seg@.skip(i as int);
    let n = seg.unicode_len();
    if i + 1 >= n {
        proof {
            assert(rem.len() < 2);
        }
        return None;
    }
    if seg.get_char(i + 1) != '!' {
        proof {
            assert(rem[1] == seg@[i as int + 1]);
        }
        return None;
    }
    proof {
        assert(rem.len() >= 2);
        assert(rem[1] == seg@[i as int + 1]);
        assert(rem.skip(2) =~= seg@.skip(i as int + 2));
    }
    match find_from(seg, i + 2, ']') {
        None => None,
        Some(j) => {
            if j == i + 2 {
                None
            } else {
                let body = seg.substring_char(i + 2, j);
                let items = parse_bracket_items(body);
                proof {
                    assert(rem.subrange(2, 2 + (j - i - 2)) =~= body@);
                }
                Some((items, j + 1))
            }
        },
    }
}

/// Try the plain-bracket reading at the head of `seg[i..]`: `[` followed by
/// a non-empty body and the closing `]`.
fn try_plain_bracket(seg: &str, i: usize) -> (r: Option<(Vec<BracketExpression>, usize)>)
    requires
        i < seg@.len(),
        seg@[i as int] == '[',
    ensures
        ({
            let rem = seg@.skip(i as int);
            let guard = find_char(rem.skip(1), ']') >= 1;
            match r {
                Some(p) => guard && p.0.deep_view() == spec_bracket_items(
                    rem.subrange(1, 1 + find_char(rem.skip(1), ']')),
                ) && p.1 == i + 2 + find_char(rem.skip(1), ']') && i < p.1 <= seg@.len(),
                None => !guard,
            }
        }),
{
    let ghost rem = seg@.skip(i as int);
    let n = seg.unicode_len();
    proof {
        assert(i < n);
        assert(rem.skip(1) =~= seg@.skip(i as int + 1));
    }
    match find_from(seg, i + 1, ']') {
        None => None,
        Some(j) => {
            if j == i + 1 {
                None
            } else {
                let body = seg.substring_char(i + 1, j);
                let items = parse_bracket_items(body);
                proof {
                    assert(rem.subrange(1, 1 + (j - i - 1)) =~= body@);
                }
                Some((items, j + 1))
            }
        },
    }
}

/// Try the alternation reading at the head of `seg[i..]`: `{`, a body up to
/// the first `}`, split at the first `,`, which must come before that `}`.
fn try_alternation(seg: &str, i: usize) -> (r: Option<(String, String, usize)>)
    requires
        i < seg@.len(),
        seg@[i as int] == '{',
    ensures
        ({
            let rem = seg@.skip(i as int);
            let c = find_char(rem.skip(1), ',');
            let rb = find_char(rem.skip(1), '}');
            match r {
                Some(p) => c >= 0 && rb >= 0 && c < rb && p.0@ == rem.subrange(1, 1 + c) && p.1@
                    == rem.subrange(2 + c, 1 + rb) && p.2 == i + 2 + rb && i < p.2 <= seg@.len(),
                None => !(c >= 0 && rb >= 0 && c < rb),
            }
        }),
{
    let ghost rem = seg@.skip(i as int);
    let n = seg.unicode_len();
    proof {
        assert(i < n);
        assert(rem.skip(1) =~= seg@.skip(i as int + 1));
    }
    let jc = match find_from(seg, i + 1, ',') {
        None => {
            return None;
        },
        Some(jc) => jc,
    };
    let jr = match find_from(seg, i + 1, '}') {
        None => {
            return None;
        },
        Some(jr) => jr,
    };
    if jc >= jr {
        return None;
    }
    let a = seg.substring_char(i + 1, jc).to_owned();
    let b = seg.substring_char(jc + 1, jr).to_owned();
    proof {
        assert(rem.subrange(1, 1 + (jc - i - 1)) =~= seg@.subrange(i as int + 1, jc as int));
        assert(rem.subrange(2 + (jc - i - 1), 1 + (jr - i - 1)) =~= seg@.subrange(
            jc as int + 1,
            jr as int,
        ));
    }
    Some((a, b, jr + 1))
}

/// Read the head token of `seg[i..]`: the pattern value it denotes and the
/// position right after it, or `None` when it is malformed.
fn next_token(seg: &str, i: usize) -> (r: Option<(AddressPattern, usize)>)
    requires
        i < seg@.len(),
    ensures
        match r {
            Some(p) => head_token(seg@.skip(i as int)) == Some((p.0@, p.1 - i as int)) && i < p.1
                <= seg@.len(),
            None => head_token(seg@.skip(i as int)) is None,
        },
{
    let ghost rem = seg@.skip(i as int);
    let n = seg.unicode_len();
    proof {
        assert(rem[0] == seg@[i as int]);
    }
    let c = seg.get_char(i);
    if c == '[' {
        match try_inverted_bracket(seg, i) {
            Some((items, next)) => {
                return Some((AddressPattern::InvertedBracketExpression(items), next));
            },
            None => {},
        }
        match try_plain_bracket(seg, i) {
            Some((items, next)) => Some((AddressPattern::BracketExpression(items), next)),
            None => None,
        }
    } else if c == '{' {
        match try_alternation(seg, i) {
            Some((a, b, next)) => Some((AddressPattern::Alt(a, b), next)),
            None => None,
        }
    } else if c == '?' {
        Some((AddressPattern::QuestionMark, i + 1))
    } else if c == '*' {
        Some((AddressPattern::Wildcard, i + 1))
    } else {
        let mut j = i;
        while j < n && !check_token_opener(seg.get_char(j))
            invariant
                i <= j <= n,
                n == seg@.len(),
                forall|k: int| i <= k < j ==> !is_token_opener(#[trigger] seg@[k]),
            decreases n - j,
        {
            j = j + 1;
        }
        proof {
            assert forall|k: int| 0 <= k < j - i implies !is_token_opener(#[trigger] rem[k]) by {
                assert(rem[k] == seg@[i + k]);
            }
            if j < n {
                assert(rem[j - i] == seg@[j as int]);
            }
            lemma_literal_run_exact(rem, j - i);
        }
        let t = seg.substring_char(i, j).to_owned();
        proof {
            assert(rem.take(j - i) =~= seg@.subrange(i as int, j as int));
        }
        Some((AddressPattern::Literal(t), j))
    }
}

/// Classify one pattern segment, appending its pattern values to `out`;
/// `false` exactly when the segment holds a malformed bracket or alternation.
fn classify_segment(seg: &str, out: &mut Vec<AddressPattern>) -> (ok: bool)
    ensures
        ok == (spec_classify_segment(seg@) is Some),
        ok ==> final(out).deep_view() == old(out).deep_view() + spec_classify_segment(
            seg@,
        ).unwrap(),
{
    let n = seg.unicode_len();
    let ghost base = out.deep_view();
    let mut i: usize = 0;
    proof {
        assert(seg@.skip(0) =~= seg@);
        assert(out.deep_view().take(base.len() as int) =~~= base);
        assert(out.deep_view().skip(base.len() as int) =~~= Seq::<PatternView>::empty());
        if spec_classify_segment(seg@) is Some {
            assert(Seq::<PatternView>::empty() + spec_classify_segment(seg@).unwrap()
                =~~= spec_classify_segment(seg@).unwrap());
        }
    }
    while i < n
        invariant
            i <= n,
            n == seg@.len(),
            out.deep_view().len() >= base.len(),
            out.deep_view().take(base.len() as int) == base,
            match spec_classify_segment(seg@.skip(i as int)) {
                None => spec_classify_segment(seg@) is None,
                Some(rest) => spec_classify_segment(seg@) == Some(
                    out.deep_view().skip(base.len() as int) + rest,
                ),
            },
        decreases n - i,
    {
        let ghost rem = seg@.skip(i as int);
        proof {
            assert(rem.len() == n - i);
        }
        match next_token(seg, i) {
            None => {
                proof {
                    assert(spec_classify_segment(rem) is None);
                }
                return false;
            },
            Some((pat, next)) => {
                let ghost dv0 = out.deep_view();
                let ghost patv = pat@;
                out.push(pat);
                proof {
                    assert(out.deep_view() =~~= dv0.push(patv));
                    assert(out.deep_view().take(base.len() as int) =~~= base);
                    let app0 = dv0.skip(base.len() as int);
                    assert(out.deep_view().skip(base.len() as int) =~~= app0.push(patv));
                    assert(rem.skip(next - i) =~= seg@.skip(next as int));
                    match spec_classify_segment(seg@.skip(next as int)) {
                        None => {
                            assert(spec_classify_segment(rem) is None);
                        },
                        Some(rest2) => {
                            assert(spec_classify_segment(rem) == Some(seq![patv] + rest2));
                            assert(app0 + (seq![patv] + rest2) =~~= app0.push(patv) + rest2);
                        },
                    }
                }
                i = next;
            },
        }
    }
    proof {
        assert(seg@.skip(i as int) =~= Seq::<char>::empty());
        let app = out.deep_view().skip(base.len() as int);
        assert(app + Seq::<PatternView>::empty() =~~= app);
        assert(out.deep_view() =~~= base + app);
    }
    true
}

/// Parse a complete address-pattern string. Succeeds exactly on the strings
/// the pattern grammar accepts, and then returns the pattern values of all
/// segments, in order.
pub fn parse_address_pattern(input: &str) -> (r: Result<Vec<AddressPattern>, ParseError>)
    ensures
        match r {
            Ok(pats) => spec_parse_pattern(input@) == Some(pats.deep_view()),
            Err(e) => spec_parse_pattern(input@) is None && e == ParseError::MalformedPattern,
        },
{
    let parts = match split_segments(input, false) {
        None => {
            return Err(ParseError::MalformedPattern);
        },
        Some(parts) => parts,
    };
    let ghost ps = parts.deep_view();
    let mut out: Vec<AddressPattern> = Vec::new();
    let mut k: usize = 0;
    proof {
        assert(ps.skip(0) =~= ps);
        assert(out.deep_view() =~~= Seq::<PatternView>::empty());
        if classify_all(ps) is Some {
            assert(Seq::<PatternView>::empty() + classify_all(ps).unwrap() =~~= classify_all(
                ps,
            ).unwrap());
        }
    }
    while k < parts.len()
        invariant
            k <= parts.len(),
            ps == parts.deep_view(),
            ps.len() == parts@.len(),
            segments_of(input@, false) == Some(ps),
            match classify_all(ps.skip(k as int)) {
                None => classify_all(ps) is None,
                Some(rest) => classify_all(ps) == Some(out.deep_view() + rest),
            },
        decreases parts.len() - k,
    {
        let ghost dv0 = out.deep_view();
        let ok = classify_segment(parts[k].as_str(), &mut out);
        proof {
            assert(parts@[k as int]@ == ps[k as int]);
            assert(ps.skip(k as int)[0] == ps[k as int]);
            assert(ps.skip(k as int).drop_first() =~= ps.skip(k as int + 1));
        }
        if !ok {
            proof {
                assert(classify_all(ps.skip(k as int)) is None);
            }
            return Err(ParseError::MalformedPattern);
        }
        proof {
            let first = spec_classify_segment(ps[k as int]).unwrap();
            match classify_all(ps.skip(k as int + 1)) {
                None => {
                    assert(classify_all(ps.skip(k as int)) is None);
                },
                Some(rest2) => {
                    assert(classify_all(ps.skip(k as int)) == Some(first + rest2));
                    assert(dv0 + (first + rest2) =~~= out.deep_view() + rest2);
                },
            }
        }
        k = k + 1;
    }
    proof {
        assert(ps.skip(parts.len() as int) =~= Seq::<Seq<char>>::empty());
        assert(out.deep_view() + Seq::<PatternView>::empty() =~~= out.deep_view());
    }
    Ok(out)
}

} // verus!
