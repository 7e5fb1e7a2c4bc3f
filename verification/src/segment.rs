//! Segmentation, shared by the two grammars.
//!
//! Both an address and an address pattern are one or more segments, each
//! introduced by `/` and made of the characters its grammar allows. The
//! strict address grammar additionally reserves the pattern metacharacters;
//! the pattern grammar reserves only whitespace and the separator.

use vstd::prelude::*;
use vstd::string::StrSliceExecFns;

verus! {

/// Why an input was rejected.
#[derive(Debug, Clone, Copy, PartialEq, Eq, Structural)]
pub enum ParseError {
    /// The input is not a well-formed address.
    MalformedAddress,
    /// The input is not a well-formed address pattern.
    MalformedPattern,
}

/// Whitespace and the separator end a segment in both grammars.
pub open spec fn is_terminator(c: char) -> bool {
    c == ' ' || c == '\t' || c == '\r' || c == '\n' || c == '/'
}

/// The pattern metacharacters, reserved by the strict address grammar.
pub open spec fn is_pattern_meta(c: char) -> bool {
    c == '#' || c == '*' || c == ',' || c == '?' || c == '[' || c == ']'
}

/// Whether `c` may appear inside a segment; `strict` selects the address
/// grammar, which reserves the pattern metacharacters as well.
pub open spec fn is_segment_char(c: char, strict: bool) -> bool {
    !is_terminator(c) && (strict ==> !is_pattern_meta(c))
}

/// Length of the longest prefix of `s` made of segment characters.
pub open spec fn segment_run(s: Seq<char>, strict: bool) -> nat
    decreases s.len(),
{
    if s.len() == 0 || !is_segment_char(s[0], strict) {
        0
    } else {
        1 + segment_run(s.drop_first(), strict)
    }
}

/// The run is bounded by the input, is made of segment characters, and is
/// maximal: the character right after it, if any, is no segment character.
pub proof fn lemma_segment_run(s: Seq<char>, strict: bool)
    ensures
        segment_run(s, strict) <= s.len(),
        forall|i: int| 0 <= i < segment_run(s, strict) ==> is_segment_char(#[trigger] s[i], strict),
        segment_run(s, strict) < s.len() ==> !is_segment_char(
            s[segment_run(s, strict) as int],
            strict,
        ),
    decreases s.len(),
{
    if s.len() > 0 && is_segment_char(s[0], strict) {
        lemma_segment_run(s.drop_first(), strict);
        assert forall|i: int| 0 <= i < segment_run(s, strict) implies is_segment_char(
            #[trigger] s[i],
            strict,
        ) by {
            if i > 0 {
                assert(s.drop_first()[i - 1] == s[i]);
            }
        }
        if segment_run(s, strict) < s.len() {
            assert(s.drop_first()[segment_run(s.drop_first(), strict) as int] == s[segment_run(
                s,
                strict,
            ) as int]);
        }
    }
}

/// A position where the characters before it are segment characters and the
/// one at it is not (or the input ends) is exactly the run's length.
pub proof fn lemma_segment_run_exact(s: Seq<char>, strict: bool, n: int)
    requires
        0 <= n <= s.len(),
        forall|i: int| 0 <= i < n ==> is_segment_char(#[trigger] s[i], strict),
        n < s.len() ==> !is_segment_char(s[n], strict),
    ensures
        segment_run(s, strict) == n,
    decreases s.len(),
{
    if n > 0 {
        assert(is_segment_char(s[0], strict));
        assert forall|i: int| 0 <= i < n - 1 implies is_segment_char(
            #[trigger] s.drop_first()[i],
            strict,
        ) by {
            assert(s.drop_first()[i] == s[i + 1]);
        }
        if n - 1 < s.drop_first().len() {
            assert(s.drop_first()[n - 1] == s[n]);
        }
        lemma_segment_run_exact(s.drop_first(), strict, n - 1);
    }
}

/// The greedy segmentation: each segment is the longest run of allowed
/// characters after its `/`. `None` when the input is not a `/`-separated
/// sequence of non-empty segments, or ends in unparsable text.
pub open spec fn split_path(s: Seq<char>, strict: bool) -> Option<Seq<Seq<char>>>
    decreases s.len(),
{
    if s.len() == 0 {
        Some(Seq::empty())
    } else if s[0] != '/' {
        None
    } else {
        let n = segment_run(s.drop_first(), strict) as int;
        if n == 0 {
            None
        } else {
            proof {
                lemma_segment_run(s.drop_first(), strict);
            }
            match split_path(s.skip(n + 1), strict) {
                None => None,
                Some(rest) => Some(seq![s.subrange(1, n + 1)] + rest),
            }
        }
    }
}

/// The canonical text of a list of segments: each one prefixed with `/`.
pub open spec fn join_segments(parts: Seq<Seq<char>>) -> Seq<char>
    decreases parts.len(),
{
    if parts.len() == 0 {
        Seq::empty()
    } else {
        seq!['/'] + parts[0] + join_segments(parts.drop_first())
    }
}

/// A non-empty segment made only of allowed characters.
pub open spec fn valid_segment(seg: Seq<char>, strict: bool) -> bool {
    seg.len() >= 1 && forall|i: int|
        0 <= i < seg.len() ==> is_segment_char(#[trigger] seg[i], strict)
}

/// `parts` is a segmentation of `s`: at least one segment, every segment
/// valid, and the segments joined with `/` give back exactly `s`.
pub open spec fn valid_split(s: Seq<char>, parts: Seq<Seq<char>>, strict: bool) -> bool {
    &&& parts.len() >= 1
    &&& forall|i: int| 0 <= i < parts.len() ==> valid_segment(#[trigger] parts[i], strict)
    &&& join_segments(parts) == s
}

/// The segments of `s`, or `None`: the split must succeed and find at least
/// one segment, so the empty input is rejected here.
pub open spec fn segments_of(s: Seq<char>, strict: bool) -> Option<Seq<Seq<char>>> {
    match split_path(s, strict) {
        Some(parts) => if parts.len() >= 1 {
            Some(parts)
        } else {
            None
        },
        None => None,
    }
}

/// A successful split is sound: its segments are valid and join back to `s`.
pub proof fn lemma_split_sound(s: Seq<char>, strict: bool)
    requires
        split_path(s, strict) is Some,
    ensures
        join_segments(split_path(s, strict).unwrap()) == s,
        forall|i: int|
            0 <= i < split_path(s, strict).unwrap().len() ==> valid_segment(
                #[trigger] split_path(s, strict).unwrap()[i],
                strict,
            ),
    decreases s.len(),
{
    let parts = split_path(s, strict).unwrap();
    if s.len() == 0 {
        assert(join_segments(parts) =~= s);
    } else {
        let n = segment_run(s.drop_first(), strict) as int;
        lemma_segment_run(s.drop_first(), strict);
        let seg = s.subrange(1, n + 1);
        let tail = s.skip(n + 1);
        lemma_split_sound(tail, strict);
        let rest = split_path(tail, strict).unwrap();
        assert(parts == seq![seg] + rest);
        assert(parts.drop_first() =~= rest);
        assert(join_segments(parts) == seq!['/'] + seg + join_segments(rest));
        assert(join_segments(parts) =~= s);
        assert forall|i: int| 0 <= i < seg.len() implies is_segment_char(
            #[trigger] seg[i],
            strict,
        ) by {
            assert(seg[i] == s.drop_first()[i]);
        }
        assert forall|i: int| 0 <= i < parts.len() implies valid_segment(
            #[trigger] parts[i],
            strict,
        ) by {
            if i > 0 {
                assert(parts[i] == rest[i - 1]);
            }
        }
    }
}

/// Joining valid segments and splitting again gives back the same segments:
/// the grammar is complete for every such list, and a segmentation is unique.
pub proof fn lemma_split_complete(parts: Seq<Seq<char>>, strict: bool)
    requires
        forall|i: int| 0 <= i < parts.len() ==> valid_segment(#[trigger] parts[i], strict),
    ensures
        split_path(join_segments(parts), strict) == Some(parts),
    decreases parts.len(),
{
    let s = join_segments(parts);
    if parts.len() == 0 {
        assert(s =~= Seq::<char>::empty());
    } else {
        let p0 = parts[0];
        let rest = parts.drop_first();
        assert(valid_segment(p0, strict));
        assert forall|i: int| 0 <= i < rest.len() implies valid_segment(
            #[trigger] rest[i],
            strict,
        ) by {
            assert(rest[i] == parts[i + 1]);
        }
        lemma_split_complete(rest, strict);
        let t = join_segments(rest);
        assert(s == seq!['/'] + p0 + t);
        assert(s[0] == '/');
        let n = p0.len() as int;
        assert forall|i: int| 0 <= i < n implies is_segment_char(
            #[trigger] s.drop_first()[i],
            strict,
        ) by {
            assert(s.drop_first()[i] == p0[i]);
        }
        if n < s.drop_first().len() {
            assert(rest.len() > 0);
            assert(t[0] == '/');
            assert(s.drop_first()[n] == t[0]);
        }
        lemma_segment_run_exact(s.drop_first(), strict, n);
        assert(s.subrange(1, n + 1) =~= p0);
        assert(s.skip(n + 1) =~= t);
        assert(seq![p0] + rest =~= parts);
    }
}

/// Two segmentations of the same string are the same segmentation.
pub proof fn lemma_split_unique(s: Seq<char>, p: Seq<Seq<char>>, q: Seq<Seq<char>>, strict: bool)
    requires
        valid_split(s, p, strict),
        valid_split(s, q, strict),
    ensures
        p == q,
{
    lemma_split_complete(p, strict);
    lemma_split_complete(q, strict);
}

/// Every character of a joined segment list is the separator or a segment
/// character of the grammar the segments are valid under.
pub proof fn lemma_join_chars(parts: Seq<Seq<char>>, strict: bool)
    requires
        forall|k: int| 0 <= k < parts.len() ==> valid_segment(#[trigger] parts[k], strict),
    ensures
        forall|i: int|
            0 <= i < join_segments(parts).len() ==> (#[trigger] join_segments(parts)[i] == '/'
                || is_segment_char(join_segments(parts)[i], strict)),
    decreases parts.len(),
{
    if parts.len() > 0 {
        let p0 = parts[0];
        let rest = parts.drop_first();
        assert(valid_segment(p0, strict));
        assert forall|k: int| 0 <= k < rest.len() implies valid_segment(
            #[trigger] rest[k],
            strict,
        ) by {
            assert(rest[k] == parts[k + 1]);
        }
        lemma_join_chars(rest, strict);
        let s = join_segments(parts);
        assert forall|i: int| 0 <= i < s.len() implies (#[trigger] s[i] == '/' || is_segment_char(
            s[i],
            strict,
        )) by {
            if i == 0 {
                assert(s[i] == '/');
            } else if i < 1 + p0.len() {
                assert(s[i] == p0[i - 1]);
            } else {
                assert(s[i] == join_segments(rest)[i - 1 - p0.len()]);
            }
        }
    }
}

/// Appending one segment extends the joined text by `/` and that segment.
pub proof fn lemma_join_push(parts: Seq<Seq<char>>, p: Seq<char>)
    ensures
        join_segments(parts.push(p)) == join_segments(parts) + seq!['/'] + p,
    decreases parts.len(),
{
    if parts.len() == 0 {
        assert(parts.push(p).drop_first() =~= Seq::<Seq<char>>::empty());
        assert(parts.push(p)[0] == p);
        assert(join_segments(Seq::<Seq<char>>::empty()) == Seq::<char>::empty());
        assert(join_segments(parts.push(p)) == seq!['/'] + p + Seq::<char>::empty());
        assert(join_segments(parts) == Seq::<char>::empty());
        assert(seq!['/'] + p + Seq::<char>::empty() =~= Seq::<char>::empty() + seq!['/'] + p);
    } else {
        assert(parts.push(p).drop_first() =~= parts.drop_first().push(p));
        lemma_join_push(parts.drop_first(), p);
        assert(parts.push(p)[0] == parts[0]);
        assert(join_segments(parts.push(p)) == seq!['/'] + parts[0] + join_segments(
            parts.drop_first().push(p),
        ));
        assert(join_segments(parts.drop_first().push(p)) == join_segments(parts.drop_first())
            + seq!['/'] + p);
        assert(seq!['/'] + parts[0] + (join_segments(parts.drop_first()) + seq!['/'] + p) =~= (
        seq!['/'] + parts[0] + join_segments(parts.drop_first())) + seq!['/'] + p);
        assert(join_segments(parts.push(p)) =~= join_segments(parts) + seq!['/'] + p);
    }
}

/// Whether `c` may appear inside a segment of the selected grammar.
fn check_segment_char(c: char, strict: bool) -> (b: bool)
    ensures
        b == is_segment_char(c, strict),
{
    if c == ' ' || c == '\t' || c == '\r' || c == '\n' || c == '/' {
        false
    } else if strict {
        !(c == '#' || c == '*' || c == ',' || c == '?' || c == '[' || c == ']')
    } else {
        true
    }
}

/// Split `input` into its `/`-led segments, or `None` when the input is not
/// one or more non-empty segments of allowed characters covering it whole.
pub(crate) fn split_segments(input: &str, strict: bool) -> (r: Option<Vec<String>>)
    ensures
        match r {
            Some(parts) => segments_of(input@, strict) == Some(parts.deep_view()),
            None => segments_of(input@, strict) is None,
        },
{
    let ghost s = input@;
    let n = input.unicode_len();
    let mut parts: Vec<String> = Vec::new();
    let mut i: usize = 0;
    proof {
        assert(s.skip(0) =~= s);
        assert(parts.deep_view() =~~= Seq::<Seq<char>>::empty());
        if split_path(s, strict) is Some {
            assert(parts.deep_view() + split_path(s, strict).unwrap() =~~= split_path(
                s,
                strict,
            ).unwrap());
        }
    }
    while i < n
        invariant
            i <= n,
            n == s.len(),
            s == input@,
            match split_path(s.skip(i as int), strict) {
                None => split_path(s, strict) is None,
                Some(rest) => split_path(s, strict) == Some(parts.deep_view() + rest),
            },
        decreases n - i,
    {
        if input.get_char(i) != '/' {
            proof {
                assert(s.skip(i as int)[0] == s[i as int]);
                assert(split_path(s.skip(i as int), strict) is None);
            }
            return None;
        }
        let mut j: usize = i + 1;
        while j < n && check_segment_char(input.get_char(j), strict)
            invariant
                i + 1 <= j <= n,
                n == s.len(),
                s == input@,
                forall|k: int| i + 1 <= k < j ==> is_segment_char(#[trigger] s[k], strict),
            decreases n - j,
        {
            j = j + 1;
        }
        proof {
            let tail1 = s.skip(i as int + 1);
            assert forall|k: int| 0 <= k < j - i - 1 implies is_segment_char(
                #[trigger] tail1[k],
                strict,
            ) by {
                assert(tail1[k] == s[i + 1 + k]);
            }
            if j < n {
                assert(tail1[j - i - 1] == s[j as int]);
            }
            lemma_segment_run_exact(tail1, strict, j - i - 1);
            assert(s.skip(i as int).drop_first() =~= tail1);
        }
        if j == i + 1 {
            proof {
                assert(s.skip(i as int)[0] == '/');
                assert(segment_run(s.skip(i as int).drop_first(), strict) == 0);
                assert(split_path(s.skip(i as int), strict) is None);
            }
            return None;
        }
        let seg = input.substring_char(i + 1, j).to_owned();
        let ghost dv0 = parts.deep_view();
        parts.push(seg);
        proof {
            let tail = s.skip(i as int);
            let m = (j - i - 1) as int;
            assert(segment_run(tail.drop_first(), strict) == m);
            assert(tail[0] == '/');
            assert(tail.subrange(1, m + 1) =~= s.subrange(i as int + 1, j as int));
            assert(tail.skip(m + 1) =~= s.skip(j as int));
            assert(seg@ == tail.subrange(1, m + 1));
            assert(parts.deep_view() =~~= dv0.push(seg@));
            match split_path(s.skip(j as int), strict) {
                None => {
                    assert(split_path(tail, strict) is None);
                }
                Some(rest) => {
                    assert(split_path(tail, strict) == Some(seq![tail.subrange(1, m + 1)] + rest));
                    assert(dv0 + (seq![seg@] + rest) =~~= parts.deep_view() + rest);
                }
            }
        }
        i = j;
    }
    proof {
        assert(s.skip(n as int) =~= Seq::<char>::empty());
        assert(split_path(s, strict) == Some(parts.deep_view() + Seq::<Seq<char>>::empty()));
        assert(parts.deep_view() + Seq::<Seq<char>>::empty() =~~= parts.deep_view());
    }
    if parts.len() == 0 {
        proof {
            assert(parts.deep_view().len() == 0);
        }
        None
    } else {
        proof {
            assert(parts.deep_view().len() == parts@.len());
        }
        Some(parts)
    }
}

} // verus!

