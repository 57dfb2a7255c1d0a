//! The pair extractor's model: how the structural events of a document pair
//! up, and what holds of the pairs.

use crate::structural::{structural_at, BracketType, Event};
use vstd::prelude::*;

verus! {

/// Distances from this value on do not fit 16 bits.
pub const THRESHOLD_16_BITS: usize = 65536;

/// The state of a walk over the structural events: the offsets of the
/// brackets of each kind that are still open, innermost last; the pairs
/// closed so far; and whether a closing bracket met an empty stack.
pub struct Walk {
    pub square: Seq<usize>,
    pub curly: Seq<usize>,
    pub pairs: Seq<(usize, usize)>,
    pub unmatched: bool,
}

impl Walk {
    /// The open brackets of one kind.
    pub open spec fn stack(self, kind: BracketType) -> Seq<usize> {
        match kind {
            BracketType::Square => self.square,
            BracketType::Curly => self.curly,
        }
    }

    /// The walk with the stack of one kind replaced.
    pub open spec fn with_stack(self, kind: BracketType, stack: Seq<usize>) -> Walk {
        match kind {
            BracketType::Square => Walk { square: stack, ..self },
            BracketType::Curly => Walk { curly: stack, ..self },
        }
    }
}

/// The walk before any event.
pub open spec fn walk_start() -> Walk {
    Walk { square: Seq::empty(), curly: Seq::empty(), pairs: Seq::empty(), unmatched: false }
}

/// The walk after one more event: an opening bracket is pushed on the stack
/// of its kind; a closing bracket pops that stack and closes a pair, or finds
/// the stack empty.
pub open spec fn walk_step(w: Walk, event: Option<Event>) -> Walk {
    match event {
        None => w,
        Some(Event::Opening(kind, open)) => w.with_stack(kind, w.stack(kind).push(open)),
        Some(Event::Closing(kind, close)) => if w.stack(kind).len() == 0 {
            Walk { unmatched: true, ..w }
        } else {
            Walk { pairs: w.pairs.push((w.stack(kind).last(), close)), ..w }.with_stack(
                kind,
                w.stack(kind).drop_last(),
            )
        },
    }
}

/// The walk over the first `upto` bytes. It stops at the first closing
/// bracket that has no opening one.
pub open spec fn walk(bytes: Seq<u8>, upto: nat) -> Walk
    decreases upto,
{
    if upto == 0 {
        walk_start()
    } else {
        let w = walk(bytes, (upto - 1) as nat);
        if w.unmatched {
            w
        } else {
            walk_step(w, structural_at(bytes, upto - 1))
        }
    }
}

/// The bracket pairs of a document in the order of their closing brackets, or
/// `None` where a closing bracket has no opening one or an opening bracket is
/// never closed.
pub open spec fn matched_pairs(bytes: Seq<u8>) -> Option<Seq<(usize, usize)>> {
    let w = walk(bytes, bytes.len());
    if !w.unmatched && w.square.len() == 0 && w.curly.len() == 0 {
        Some(w.pairs)
    } else {
        None
    }
}

/// The pairs split by distance: those whose distance fits 16 bits, as keys
/// and 16-bit distances, and the others, as keys and full distances.
pub struct Split {
    pub keys_16: Seq<usize>,
    pub values_16: Seq<u16>,
    pub keys_64: Seq<usize>,
    pub values_64: Seq<usize>,
}

/// Splits pairs into short and long ones; each list keeps the order of the
/// pairs.
pub open spec fn split(pairs: Seq<(usize, usize)>) -> Split
    decreases pairs.len(),
{
    if pairs.len() == 0 {
        Split {
            keys_16: Seq::empty(),
            values_16: Seq::empty(),
            keys_64: Seq::empty(),
            values_64: Seq::empty(),
        }
    } else {
        let s = split(pairs.drop_last());
        let (open, close) = pairs.last();
        let distance = close - open;
        if distance < THRESHOLD_16_BITS {
            Split {
                keys_16: s.keys_16.push(open),
                values_16: s.values_16.push(distance as u16),
                ..s
            }
        } else {
            Split {
                keys_64: s.keys_64.push(open),
                values_64: s.values_64.push(distance as usize),
                ..s
            }
        }
    }
}

/// By how much an event changes the nesting depth of one kind.
pub open spec fn depth_change(event: Option<Event>, kind: BracketType) -> int {
    match event {
        Some(Event::Opening(k, _)) => if k == kind {
            1
        } else {
            0
        },
        Some(Event::Closing(k, _)) => if k == kind {
            -1
        } else {
            0
        },
        None => 0,
    }
}

/// The nesting depth of one kind before offset `upto`: opening minus closing
/// brackets of that kind among the structural events below `upto`.
pub open spec fn depth(bytes: Seq<u8>, kind: BracketType, upto: nat) -> int
    decreases upto,
{
    if upto == 0 {
        0
    } else {
        depth(bytes, kind, (upto - 1) as nat) + depth_change(structural_at(bytes, upto - 1), kind)
    }
}

/// Whether the bracket at `close` closes the one at `open`: both are
/// structural brackets of kind `kind`, and `close` is the first offset after
/// `open` at which the depth of that kind is back at its value before `open`.
pub open spec fn is_match(bytes: Seq<u8>, kind: BracketType, open: usize, close: usize) -> bool {
    &&& open < close < bytes.len()
    &&& structural_at(bytes, open as int) == Some(Event::Opening(kind, open))
    &&& structural_at(bytes, close as int) == Some(Event::Closing(kind, close))
    &&& depth(bytes, kind, (close + 1) as nat) == depth(bytes, kind, open as nat)
    &&& forall|p: nat|
        open < p <= close ==> #[trigger] depth(bytes, kind, p) > depth(bytes, kind, open as nat)
}

/// Whether a pair is a matching pair of brackets of one kind.
pub open spec fn pair_matches(bytes: Seq<u8>, pair: (usize, usize)) -> bool {
    is_match(bytes, BracketType::Square, pair.0, pair.1) || is_match(
        bytes,
        BracketType::Curly,
        pair.0,
        pair.1,
    )
}

/// The number of opening brackets among the structural events below `upto`.
pub open spec fn count_openings(bytes: Seq<u8>, upto: nat) -> nat
    decreases upto,
{
    if upto == 0 {
        0
    } else {
        count_openings(bytes, (upto - 1) as nat) + match structural_at(bytes, upto - 1) {
            Some(Event::Opening(_, _)) => 1nat,
            _ => 0nat,
        }
    }
}

/// What holds of a stack of the walk before offset `upto`: it is as deep as
/// the nesting, and each entry is an opening bracket that nothing has closed.
pub open spec fn stack_ok(bytes: Seq<u8>, kind: BracketType, s: Seq<usize>, upto: nat) -> bool {
    &&& s.len() == depth(bytes, kind, upto)
    &&& forall|j: int|
        0 <= j < s.len() ==> {
            &&& (#[trigger] s[j]) < upto
            &&& structural_at(bytes, s[j] as int) == Some(Event::Opening(kind, s[j]))
            &&& depth(bytes, kind, s[j] as nat) == j
            &&& forall|p: nat| s[j] < p <= upto ==> #[trigger] depth(bytes, kind, p) > j
        }
}

/// What holds of the walk before offset `upto`.
pub open spec fn walk_ok(bytes: Seq<u8>, upto: nat, w: Walk) -> bool {
    &&& !w.unmatched ==> {
        &&& stack_ok(bytes, BracketType::Square, w.square, upto)
        &&& stack_ok(bytes, BracketType::Curly, w.curly, upto)
        &&& w.pairs.len() + w.square.len() + w.curly.len() == count_openings(bytes, upto)
    }
    &&& forall|m: int|
        0 <= m < w.pairs.len() ==> pair_matches(bytes, #[trigger] w.pairs[m]) && w.pairs[m].1
            < upto
    &&& forall|m1: int, m2: int|
        0 <= m1 < m2 < w.pairs.len() ==> (#[trigger] w.pairs[m1]).1 < (#[trigger] w.pairs[m2]).1
}

/// A stack of the walk stays in order over a byte that does not touch its
/// kind.
proof fn lemma_stack_untouched(bytes: Seq<u8>, kind: BracketType, s: Seq<usize>, upto: nat)
    requires
        stack_ok(bytes, kind, s, upto),
        depth_change(structural_at(bytes, upto as int), kind) == 0,
    ensures
        stack_ok(bytes, kind, s, upto + 1),
{
    assert(depth(bytes, kind, upto + 1) == depth(bytes, kind, upto));
    assert forall|j: int| 0 <= j < s.len() implies ({
        &&& (#[trigger] s[j]) < upto + 1
        &&& structural_at(bytes, s[j] as int) == Some(Event::Opening(kind, s[j]))
        &&& depth(bytes, kind, s[j] as nat) == j
        &&& forall|p: nat| s[j] < p <= upto + 1 ==> #[trigger] depth(bytes, kind, p) > j
    }) by {
        assert forall|p: nat| s[j] < p <= upto + 1 implies #[trigger] depth(bytes, kind, p)
            > j by {
            if p <= upto {
            }
        }
    }
}

/// A stack of the walk stays in order when an opening bracket of its kind is
/// pushed.
proof fn lemma_stack_push(bytes: Seq<u8>, kind: BracketType, s: Seq<usize>, upto: nat)
    requires
        upto <= usize::MAX,
        stack_ok(bytes, kind, s, upto),
        structural_at(bytes, upto as int) == Some(Event::Opening(kind, upto as usize)),
    ensures
        stack_ok(bytes, kind, s.push(upto as usize), upto + 1),
{
    let s2 = s.push(upto as usize);
    assert(depth(bytes, kind, upto + 1) == depth(bytes, kind, upto) + 1);
    assert forall|j: int| 0 <= j < s2.len() implies ({
        &&& (#[trigger] s2[j]) < upto + 1
        &&& structural_at(bytes, s2[j] as int) == Some(Event::Opening(kind, s2[j]))
        &&& depth(bytes, kind, s2[j] as nat) == j
        &&& forall|p: nat| s2[j] < p <= upto + 1 ==> #[trigger] depth(bytes, kind, p) > j
    }) by {
        if j < s.len() {
            assert(s2[j] == s[j]);
            assert forall|p: nat| s2[j] < p <= upto + 1 implies #[trigger] depth(bytes, kind, p)
                > j by {
                if p <= upto {
                }
            }
        }
    }
}

/// When a closing bracket pops a stack of the walk, the rest stays in order
/// and the closed pair matches.
proof fn lemma_stack_pop(bytes: Seq<u8>, kind: BracketType, s: Seq<usize>, upto: nat)
    requires
        upto <= usize::MAX,
        s.len() > 0,
        stack_ok(bytes, kind, s, upto),
        structural_at(bytes, upto as int) == Some(Event::Closing(kind, upto as usize)),
    ensures
        stack_ok(bytes, kind, s.drop_last(), upto + 1),
        is_match(bytes, kind, s.last(), upto as usize),
{
    let s2 = s.drop_last();
    assert(depth(bytes, kind, upto + 1) == depth(bytes, kind, upto) - 1);
    assert forall|j: int| 0 <= j < s2.len() implies ({
        &&& (#[trigger] s2[j]) < upto + 1
        &&& structural_at(bytes, s2[j] as int) == Some(Event::Opening(kind, s2[j]))
        &&& depth(bytes, kind, s2[j] as nat) == j
        &&& forall|p: nat| s2[j] < p <= upto + 1 ==> #[trigger] depth(bytes, kind, p) > j
    }) by {
        assert(s2[j] == s[j]);
        assert forall|p: nat| s2[j] < p <= upto + 1 implies #[trigger] depth(bytes, kind, p)
            > j by {
            if p <= upto {
            }
        }
    }
    let top = s.len() - 1;
    assert(s[top] == s.last());
}

/// The other kind of bracket.
pub open spec fn other(kind: BracketType) -> BracketType {
    match kind {
        BracketType::Square => BracketType::Curly,
        BracketType::Curly => BracketType::Square,
    }
}

/// [`walk_ok`] holds of the walk over every prefix.
pub proof fn lemma_walk(bytes: Seq<u8>, upto: nat)
    requires
        upto <= bytes.len() <= usize::MAX,
    ensures
        walk_ok(bytes, upto, walk(bytes, upto)),
    decreases upto,
{
    if upto > 0 {
        let i = (upto - 1) as nat;
        lemma_walk(bytes, i);
        let w = walk(bytes, i);
        let w2 = walk(bytes, upto);
        let event = structural_at(bytes, i as int);
        if !w.unmatched {
            match event {
                None => {
                    lemma_stack_untouched(bytes, BracketType::Square, w.square, i);
                    lemma_stack_untouched(bytes, BracketType::Curly, w.curly, i);
                },
                Some(Event::Opening(kind, open)) => {
                    lemma_stack_push(bytes, kind, w.stack(kind), i);
                    lemma_stack_untouched(bytes, other(kind), w.stack(other(kind)), i);
                },
                Some(Event::Closing(kind, close)) => {
                    if w.stack(kind).len() > 0 {
                        lemma_stack_pop(bytes, kind, w.stack(kind), i);
                        lemma_stack_untouched(bytes, other(kind), w.stack(other(kind)), i);
                        assert(pair_matches(bytes, (w.stack(kind).last(), close)));
                        assert forall|m: int| 0 <= m < w2.pairs.len() implies pair_matches(
                            bytes,
                            #[trigger] w2.pairs[m],
                        ) && w2.pairs[m].1 < upto by {
                            if m < w.pairs.len() {
                                assert(w2.pairs[m] == w.pairs[m]);
                            }
                        }
                        assert forall|m1: int, m2: int|
                            0 <= m1 < m2 < w2.pairs.len() implies (#[trigger] w2.pairs[m1]).1 < (
                        #[trigger] w2.pairs[m2]).1 by {
                            assert(w2.pairs[m1] == w.pairs[m1]);
                            if m2 < w.pairs.len() {
                                assert(w2.pairs[m2] == w.pairs[m2]);
                            }
                        }
                    }
                },
            }
        }
    }
}

/// Every pair of the walk is a matching pair of brackets of one kind, with
/// the opening bracket before the closing one, and the pairs come in the
/// order of their closing brackets.
pub proof fn lemma_pairs_match(bytes: Seq<u8>)
    requires
        bytes.len() <= usize::MAX,
    ensures
        forall|m: int|
            0 <= m < walk(bytes, bytes.len()).pairs.len() ==> {
                let pair = #[trigger] walk(bytes, bytes.len()).pairs[m];
                pair.0 < pair.1 && pair_matches(bytes, pair)
            },
        forall|m1: int, m2: int|
            0 <= m1 < m2 < walk(bytes, bytes.len()).pairs.len() ==> (#[trigger] walk(
                bytes,
                bytes.len(),
            ).pairs[m1]).1 < (#[trigger] walk(bytes, bytes.len()).pairs[m2]).1,
{
    lemma_walk(bytes, bytes.len());
}

/// Where every bracket finds its partner, there are as many pairs as opening
/// brackets outside string literals.
pub proof fn lemma_pairs_complete(bytes: Seq<u8>)
    requires
        bytes.len() <= usize::MAX,
        matched_pairs(bytes).is_some(),
    ensures
        matched_pairs(bytes).unwrap().len() == count_openings(bytes, bytes.len()),
{
    lemma_walk(bytes, bytes.len());
}

/// Bytes without structural events leave the walk as it is.
pub proof fn lemma_walk_skip(bytes: Seq<u8>, from: nat, upto: nat)
    requires
        from <= upto,
        forall|j: int| from <= j < upto ==> structural_at(bytes, j).is_none(),
    ensures
        walk(bytes, upto) == walk(bytes, from),
    decreases upto,
{
    if from < upto {
        lemma_walk_skip(bytes, from, (upto - 1) as nat);
    }
}

/// Once a closing bracket has met an empty stack, the walk stays as it is.
pub proof fn lemma_walk_unmatched(bytes: Seq<u8>, from: nat, upto: nat)
    requires
        from <= upto,
        walk(bytes, from).unmatched,
    ensures
        walk(bytes, upto) == walk(bytes, from),
    decreases upto,
{
    if from < upto {
        lemma_walk_unmatched(bytes, from, (upto - 1) as nat);
    }
}

/// Each pair is found again in the split lists, with its distance: among the
/// short ones where the distance fits 16 bits, among the long ones where it
/// does not.
pub proof fn lemma_split_covers(pairs: Seq<(usize, usize)>, m: int)
    requires
        0 <= m < pairs.len(),
        pairs[m].0 <= pairs[m].1,
    ensures
        ({
            let s = split(pairs);
            let (open, close) = pairs[m];
            ||| exists|i: int|
                0 <= i < s.keys_16.len() && s.keys_16.len() == s.values_16.len()
                    && #[trigger] s.keys_16[i] == open && s.values_16[i] == close - open
            ||| exists|j: int|
                0 <= j < s.keys_64.len() && s.keys_64.len() == s.values_64.len()
                    && #[trigger] s.keys_64[j] == open && s.values_64[j] == close - open
        }),
    decreases pairs.len(),
{
    lemma_split_lengths(pairs);
    let s = split(pairs);
    let rest = split(pairs.drop_last());
    lemma_split_lengths(pairs.drop_last());
    let (open, close) = pairs[m];
    if m == pairs.len() - 1 {
        if close - open < THRESHOLD_16_BITS {
            assert(s.keys_16[s.keys_16.len() - 1] == open);
        } else {
            assert(s.keys_64[s.keys_64.len() - 1] == open);
        }
    } else {
        lemma_split_covers(pairs.drop_last(), m);
        if exists|i: int|
            0 <= i < rest.keys_16.len() && #[trigger] rest.keys_16[i] == open && rest.values_16[i]
                == close - open {
            let i = choose|i: int|
                0 <= i < rest.keys_16.len() && #[trigger] rest.keys_16[i] == open
                    && rest.values_16[i] == close - open;
            assert(s.keys_16[i] == open && s.values_16[i] == close - open);
        } else {
            let j = choose|j: int|
                0 <= j < rest.keys_64.len() && #[trigger] rest.keys_64[j] == open
                    && rest.values_64[j] == close - open;
            assert(s.keys_64[j] == open && s.values_64[j] == close - open);
        }
    }
}

/// The split lists are parallel, and every short distance is below the
/// threshold.
pub proof fn lemma_split_lengths(pairs: Seq<(usize, usize)>)
    ensures
        split(pairs).keys_16.len() == split(pairs).values_16.len(),
        split(pairs).keys_64.len() == split(pairs).values_64.len(),
        split(pairs).keys_16.len() + split(pairs).keys_64.len() == pairs.len(),
    decreases pairs.len(),
{
    if pairs.len() > 0 {
        lemma_split_lengths(pairs.drop_last());
    }
}

/// An opening bracket has one closing bracket only.
pub proof fn lemma_match_unique(
    bytes: Seq<u8>,
    kind: BracketType,
    open: usize,
    close1: usize,
    close2: usize,
)
    requires
        is_match(bytes, kind, open, close1),
        is_match(bytes, kind, open, close2),
    ensures
        close1 == close2,
{
    if close1 < close2 {
        assert(depth(bytes, kind, (close1 + 1) as nat) > depth(bytes, kind, open as nat));
    } else if close2 < close1 {
        assert(depth(bytes, kind, (close2 + 1) as nat) > depth(bytes, kind, open as nat));
    }
}

/// No opening bracket occurs in two pairs of the walk.
pub proof fn lemma_opens_distinct(bytes: Seq<u8>)
    requires
        bytes.len() <= usize::MAX,
    ensures
        forall|m1: int, m2: int|
            0 <= m1 < walk(bytes, bytes.len()).pairs.len() && 0 <= m2 < walk(
                bytes,
                bytes.len(),
            ).pairs.len() && m1 != m2 ==> (#[trigger] walk(bytes, bytes.len()).pairs[m1]).0 != (
            #[trigger] walk(bytes, bytes.len()).pairs[m2]).0,
{
    lemma_walk(bytes, bytes.len());
    let pairs = walk(bytes, bytes.len()).pairs;
    assert forall|m1: int, m2: int|
        0 <= m1 < pairs.len() && 0 <= m2 < pairs.len() && m1 != m2 implies (#[trigger] pairs[m1]).0
        != (#[trigger] pairs[m2]).0 by {
        let p1 = pairs[m1];
        let p2 = pairs[m2];
        if p1.0 == p2.0 {
            assert(pair_matches(bytes, p1));
            assert(pair_matches(bytes, p2));
            if is_match(bytes, BracketType::Square, p1.0, p1.1) {
                lemma_match_unique(bytes, BracketType::Square, p1.0, p1.1, p2.1);
            } else {
                lemma_match_unique(bytes, BracketType::Curly, p1.0, p1.1, p2.1);
            }
            if m1 < m2 {
                assert(pairs[m1].1 < pairs[m2].1);
            } else {
                assert(pairs[m2].1 < pairs[m1].1);
            }
        }
    }
}

/// Each entry of the split lists is one of the pairs; and where no opening
/// offset occurs in two pairs, no key occurs twice in the split lists.
pub proof fn lemma_split_sound(pairs: Seq<(usize, usize)>)
    requires
        forall|m: int| 0 <= m < pairs.len() ==> (#[trigger] pairs[m]).0 <= pairs[m].1,
    ensures
        ({
            let s = split(pairs);
            &&& forall|i: int|
                #![trigger s.keys_16[i]]
                0 <= i < s.keys_16.len() ==> exists|m: int|
                    0 <= m < pairs.len() && (#[trigger] pairs[m]).0 == s.keys_16[i] && pairs[m].1
                        == s.keys_16[i] + s.values_16[i]
            &&& forall|j: int|
                #![trigger s.keys_64[j]]
                0 <= j < s.keys_64.len() ==> exists|m: int|
                    0 <= m < pairs.len() && (#[trigger] pairs[m]).0 == s.keys_64[j] && pairs[m].1
                        == s.keys_64[j] + s.values_64[j]
            &&& (forall|m1: int, m2: int|
                0 <= m1 < pairs.len() && 0 <= m2 < pairs.len() && m1 != m2 ==> (
                #[trigger] pairs[m1]).0 != (#[trigger] pairs[m2]).0) ==> (s.keys_16
                + s.keys_64).no_duplicates()
        }),
    decreases pairs.len(),
{
    lemma_split_lengths(pairs);
    if pairs.len() > 0 {
        let rest_pairs = pairs.drop_last();
        let rest = split(rest_pairs);
        let s = split(pairs);
        let last = pairs.last();
        lemma_split_lengths(rest_pairs);
        assert forall|m: int| 0 <= m < rest_pairs.len() implies (#[trigger] rest_pairs[m]).0
            <= rest_pairs[m].1 by {
            assert(rest_pairs[m] == pairs[m]);
        }
        lemma_split_sound(rest_pairs);
        assert forall|i: int| #![trigger s.keys_16[i]] 0 <= i < s.keys_16.len() implies exists|m: int|
            0 <= m < pairs.len() && (#[trigger] pairs[m]).0 == s.keys_16[i] && pairs[m].1
                == s.keys_16[i] + s.values_16[i] by {
            if i < rest.keys_16.len() {
                let m = choose|m: int|
                    0 <= m < rest_pairs.len() && (#[trigger] rest_pairs[m]).0 == rest.keys_16[i]
                        && rest_pairs[m].1 == rest.keys_16[i] + rest.values_16[i];
                assert(pairs[m] == rest_pairs[m]);
            } else {
                assert(pairs[pairs.len() - 1] == last);
            }
        }
        assert forall|j: int| #![trigger s.keys_64[j]] 0 <= j < s.keys_64.len() implies exists|m: int|
            0 <= m < pairs.len() && (#[trigger] pairs[m]).0 == s.keys_64[j] && pairs[m].1
                == s.keys_64[j] + s.values_64[j] by {
            if j < rest.keys_64.len() {
                let m = choose|m: int|
                    0 <= m < rest_pairs.len() && (#[trigger] rest_pairs[m]).0 == rest.keys_64[j]
                        && rest_pairs[m].1 == rest.keys_64[j] + rest.values_64[j];
                assert(pairs[m] == rest_pairs[m]);
            } else {
                assert(pairs[pairs.len() - 1] == last);
            }
        }
        if forall|m1: int, m2: int|
            0 <= m1 < pairs.len() && 0 <= m2 < pairs.len() && m1 != m2 ==> (#[trigger] pairs[m1]).0
                != (#[trigger] pairs[m2]).0 {
            assert forall|m1: int, m2: int|
                0 <= m1 < rest_pairs.len() && 0 <= m2 < rest_pairs.len() && m1 != m2 implies (
            #[trigger] rest_pairs[m1]).0 != (#[trigger] rest_pairs[m2]).0 by {
                assert(rest_pairs[m1] == pairs[m1]);
                assert(rest_pairs[m2] == pairs[m2]);
            }
            let all = s.keys_16 + s.keys_64;
            let before = rest.keys_16 + rest.keys_64;
            assert forall|a: int| 0 <= a < before.len() implies #[trigger] before[a] != last.0 by {
                if a < rest.keys_16.len() {
                    let m = choose|m: int|
                        0 <= m < rest_pairs.len() && (#[trigger] rest_pairs[m]).0
                            == rest.keys_16[a] && rest_pairs[m].1 == rest.keys_16[a]
                            + rest.values_16[a];
                    assert(pairs[m] == rest_pairs[m]);
                    assert(pairs[pairs.len() - 1] == last);
                } else {
                    let j = a - rest.keys_16.len();
                    let m = choose|m: int|
                        0 <= m < rest_pairs.len() && (#[trigger] rest_pairs[m]).0
                            == rest.keys_64[j] && rest_pairs[m].1 == rest.keys_64[j]
                            + rest.values_64[j];
                    assert(pairs[m] == rest_pairs[m]);
                    assert(pairs[pairs.len() - 1] == last);
                }
            }
            assert forall|a: int, b: int|
                0 <= a < all.len() && 0 <= b < all.len() && a != b implies all[a] != all[b] by {
                lemma_split_index(rest, s, last.0, a);
                lemma_split_index(rest, s, last.0, b);
                let ia = split_index(rest, s, a);
                let ib = split_index(rest, s, b);
                if ia >= 0 && ib >= 0 {
                    assert(before[ia] != before[ib]);
                } else if ia >= 0 {
                    assert(before[ia] != last.0);
                } else if ib >= 0 {
                    assert(before[ib] != last.0);
                }
            }
        }
    } else {
        assert((split(pairs).keys_16 + split(pairs).keys_64).len() == 0);
    }
}

/// Where the key at index `a` of the lists `s` stood in the lists `rest`
/// that `s` grew from by one key; -1 for the new key.
pub open spec fn split_index(rest: Split, s: Split, a: int) -> int {
    if s.keys_16.len() > rest.keys_16.len() {
        if a < rest.keys_16.len() {
            a
        } else if a == rest.keys_16.len() {
            -1
        } else {
            a - 1
        }
    } else {
        if a < rest.keys_16.len() + rest.keys_64.len() {
            a
        } else {
            -1
        }
    }
}

/// [`split_index`] finds each key of the grown lists again.
pub proof fn lemma_split_index(rest: Split, s: Split, open: usize, a: int)
    requires
        0 <= a < s.keys_16.len() + s.keys_64.len(),
        (s.keys_16 == rest.keys_16.push(open) && s.keys_64 == rest.keys_64) || (s.keys_16
            == rest.keys_16 && s.keys_64 == rest.keys_64.push(open)),
    ensures
        ({
            let i = split_index(rest, s, a);
            &&& -1 <= i < rest.keys_16.len() + rest.keys_64.len()
            &&& i >= 0 ==> (s.keys_16 + s.keys_64)[a] == (rest.keys_16 + rest.keys_64)[i]
            &&& i < 0 ==> (s.keys_16 + s.keys_64)[a] == open
        }),
{
}

/// No pair of a document has distance 0: every short distance is at least 1
/// and every long one at least the threshold.
pub proof fn lemma_distances_positive(bytes: Seq<u8>)
    requires
        bytes.len() <= usize::MAX,
    ensures
        ({
            let s = split(walk(bytes, bytes.len()).pairs);
            &&& forall|i: int| 0 <= i < s.values_16.len() ==> 1 <= #[trigger] s.values_16[i]
            &&& forall|j: int|
                0 <= j < s.values_64.len() ==> THRESHOLD_16_BITS <= #[trigger] s.values_64[j]
        }),
{
    lemma_pairs_match(bytes);
    lemma_split_positive(walk(bytes, bytes.len()).pairs);
}

/// Pairs whose closing offset lies behind the opening one split into short
/// distances of at least 1 and long ones of at least the threshold.
pub proof fn lemma_split_positive(pairs: Seq<(usize, usize)>)
    requires
        forall|m: int| 0 <= m < pairs.len() ==> (#[trigger] pairs[m]).0 < pairs[m].1,
    ensures
        forall|i: int|
            0 <= i < split(pairs).values_16.len() ==> 1 <= #[trigger] split(pairs).values_16[i],
        forall|j: int|
            0 <= j < split(pairs).values_64.len() ==> THRESHOLD_16_BITS <= #[trigger] split(
                pairs,
            ).values_64[j],
    decreases pairs.len(),
{
    if pairs.len() > 0 {
        let rest = pairs.drop_last();
        assert forall|m: int| 0 <= m < rest.len() implies (#[trigger] rest[m]).0 < rest[m].1 by {
            assert(rest[m] == pairs[m]);
        }
        lemma_split_positive(rest);
        assert(pairs[pairs.len() - 1] == pairs.last());
        let s = split(pairs);
        let r = split(rest);
        assert forall|i: int| 0 <= i < s.values_16.len() implies 1 <= #[trigger] s.values_16[i] by {
            if i < r.values_16.len() {
                assert(s.values_16[i] == r.values_16[i]);
            }
        }
        assert forall|j: int| 0 <= j < s.values_64.len() implies THRESHOLD_16_BITS
            <= #[trigger] s.values_64[j] by {
            if j < r.values_64.len() {
                assert(s.values_64[j] == r.values_64[j]);
            }
        }
    }
}

} // verus!
