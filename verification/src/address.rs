//! The strict address parser.
//!
//! An address is a concrete, pattern-free destination: an ordered container
//! path and a final method name, written `/seg/.../method`. Its segments
//! admit no whitespace, no `/`, and none of the pattern metacharacters.

use vstd::prelude::*;
use vstd::string::StringExecFns;

use crate::segment::ParseError;
use crate::segment::lemma_join_push;
use crate::segment::is_pattern_meta;
use crate::segment::join_segments;
use crate::segment::lemma_join_chars;
use crate::segment::lemma_split_complete;
use crate::segment::lemma_split_sound;
use crate::segment::segments_of;
use crate::segment::split_segments;
use crate::segment::valid_segment;
use crate::segment::valid_split;

verus! {

/// The mathematical content of an [`Address`]: its segments as sequences.
#[verifier::ext_equal]
pub struct AddressView {
    /// The container path, outermost first.
    pub containers: Seq<Seq<char>>,
    /// The final segment, naming the method.
    pub method: Seq<char>,
}

impl AddressView {
    /// All segments in path order: the containers, then the method.
    pub open spec fn segments(self) -> Seq<Seq<char>> {
        self.containers.push(self.method)
    }

    /// Every segment is valid under the strict address grammar.
    pub open spec fn wf(self) -> bool {
        forall|i: int|
            0 <= i < self.segments().len() ==> valid_segment(#[trigger] self.segments()[i], true)
    }

    /// The canonical text: the segments, each prefixed with `/`.
    pub open spec fn canonical(self) -> Seq<char> {
        join_segments(self.segments())
    }
}

/// What parsing an address means: segment the input under the strict
/// grammar; all segments but the last are the containers, the last is the
/// method. `None` when the input is not one or more valid `/`-led segments.
pub open spec fn spec_parse_address(s: Seq<char>) -> Option<AddressView> {
    match segments_of(s, true) {
        None => None,
        Some(parts) => Some(
            AddressView { containers: parts.drop_last(), method: parts.last() },
        ),
    }
}

/// A concrete, pattern-free destination: container path plus method name.
#[derive(Debug, Clone, PartialEq, Eq)]
pub struct Address {
    /// The container path, outermost first.
    pub containers: Vec<String>,
    /// The final segment, naming the method.
    pub method: String,
}

impl View for Address {
    type V = AddressView;

    open spec fn view(&self) -> AddressView {
        AddressView { containers: self.containers.deep_view(), method: self.method@ }
    }
}

impl Address {
    /// The canonical text of the address: every segment prefixed with `/`.
    pub fn to_canonical(&self) -> (s: String)
        ensures
            s@ == self@.canonical(),
    {
        let mut s = String::new();
        proof {
            reveal_strlit("/");
            assert("/"@ =~= seq!['/']);
            assert(self@.containers.take(0) =~= Seq::<Seq<char>>::empty());
            assert(s@ =~= join_segments(self@.containers.take(0)));
        }
        let mut k: usize = 0;
        while k < self.containers.len()
            invariant
                k <= self.containers.len(),
                s@ == join_segments(self@.containers.take(k as int)),
                "/"@ == seq!['/'],
            decreases self.containers.len() - k,
        {
            s.append("/");
            s.append(self.containers[k].as_str());
            proof {
                lemma_join_push(self@.containers.take(k as int), self@.containers[k as int]);
                assert(self@.containers.take(k as int).push(self@.containers[k as int])
                    =~= self@.containers.take(k as int + 1));
            }
            k = k + 1;
        }
        s.append("/");
        s.append(self.method.as_str());
        proof {
            assert(self@.containers.take(self.containers@.len() as int) =~= self@.containers);
            lemma_join_push(self@.containers, self@.method);
        }
        s
    }
}

/// Parse a complete address string. Succeeds exactly on the strings the
/// strict grammar accepts, and then returns the unique segmentation.
pub fn parse_address(input: &str) -> (r: Result<Address, ParseError>)
    ensures
        match r {
            Ok(a) => spec_parse_address(input@) == Some(a@) && a@.wf(),
            Err(e) => spec_parse_address(input@) is None && e == ParseError::MalformedAddress,
        },
{
    match split_segments(input, true) {
        None => Err(ParseError::MalformedAddress),
        Some(mut parts) => {
            let ghost ps = parts.deep_view();
            let method = parts.pop().unwrap();
            let a = Address { containers: parts, method };
            proof {
                assert(a@.containers =~~= ps.drop_last());
                assert(a@.method == ps.last());
                assert(a@ =~~= spec_parse_address(input@).unwrap());
                lemma_split_sound(input@, true);
                assert forall|i: int| 0 <= i < a@.segments().len() implies valid_segment(
                    #[trigger] a@.segments()[i],
                    true,
                ) by {
                    assert(a@.segments() =~~= ps);
                    assert(a@.segments()[i] == ps[i]);
                }
            }
            Ok(a)
        },
    }
}

/// Every `/`-joined list of valid strict segments is accepted, and parses to
/// exactly those segments: all but the last as containers, the last as the
/// method, in their original order.
pub proof fn lemma_parse_address_complete(s: Seq<char>, parts: Seq<Seq<char>>)
    requires
        valid_split(s, parts, true),
    ensures
        spec_parse_address(s) == Some(
            AddressView { containers: parts.drop_last(), method: parts.last() },
        ),
{
    lemma_split_complete(parts, true);
}

/// A string holding any pattern metacharacter is no address: such characters
/// require the pattern grammar.
pub proof fn lemma_meta_char_rejects_address(s: Seq<char>, i: int)
    requires
        0 <= i < s.len(),
        is_pattern_meta(s[i]),
    ensures
        spec_parse_address(s) is None,
{
    if spec_parse_address(s) is Some {
        let parts = segments_of(s, true).unwrap();
        lemma_split_sound(s, true);
        lemma_join_chars(parts, true);
        assert(join_segments(parts)[i] == s[i]);
        assert(false);
    }
}

/// Idempotence: re-parsing the canonical text of a well-formed address view
/// yields that view back unchanged.
pub proof fn lemma_canonical_round_trip(a: AddressView)
    requires
        a.wf(),
    ensures
        spec_parse_address(a.canonical()) == Some(a),
{
    lemma_split_complete(a.segments(), true);
    assert(a.segments().drop_last() =~~= a.containers);
    assert(a.segments().last() == a.method);
    assert(spec_parse_address(a.canonical()).unwrap() =~~= a);
}

} // verus!

