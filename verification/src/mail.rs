//! The parts of a MIME message, as the e-mail parser reads them.

use vstd::prelude::*;

verus! {

/// One part of a parsed message: its headers in order, its decoded body (or
/// the decoding error), and how many subparts it has.
pub struct MailPart {
    pub headers: Vec<(String, String)>,
    pub body: Result<String, mailparse::MailParseError>,
    pub subpart_count: usize,
}

/// Mathematical model of a [`MailPart`].
pub struct MailPartView {
    pub headers: Seq<(Seq<char>, Seq<char>)>,
    pub body: Result<Seq<char>, mailparse::MailParseError>,
    pub subpart_count: nat,
}

impl View for MailPart {
    type V = MailPartView;

    open spec fn view(&self) -> MailPartView {
        MailPartView {
            headers: self.headers.deep_view(),
            body: match self.body {
                Ok(s) => Ok(s@),
                Err(e) => Err(e),
            },
            subpart_count: self.subpart_count as nat,
        }
    }
}

/// The models of a list of parts.
pub open spec fn parts_view(parts: Seq<MailPart>) -> Seq<MailPartView> {
    parts.map_values(|p: MailPart| p@)
}

// The parts of a message are listed in depth-first pre-order: a part, then
// the parts of its first subpart's subtree, then those of the second, and so
// on. The functions below recover the tree from that listing; each gives
// nothing on a listing that no tree has.

/// One past the last position of the subtree whose root is listed at `pos`.
pub open spec fn subtree_end(r: Seq<MailPartView>, pos: int) -> Option<int>
    decreases r.len() - pos, 0int,
{
    if 0 <= pos < r.len() {
        children_end(r, pos + 1, r[pos].subpart_count)
    } else {
        None
    }
}

/// One past the last position of `k` consecutive sibling subtrees, the first
/// listed at `p`.
pub open spec fn children_end(r: Seq<MailPartView>, p: int, k: nat) -> Option<int>
    decreases r.len() - p, k as int,
{
    if k == 0 {
        Some(p)
    } else if 0 <= p < r.len() {
        match subtree_end(r, p) {
            Some(q) => if p < q <= r.len() {
                children_end(r, q, (k - 1) as nat)
            } else {
                None
            },
            None => None,
        }
    } else {
        None
    }
}

/// Positions of `k` consecutive sibling subtrees, the first listed at `p`.
pub open spec fn child_positions(r: Seq<MailPartView>, p: int, k: nat) -> Seq<int>
    decreases r.len() - p, k,
{
    if k == 0 {
        seq![]
    } else if 0 <= p < r.len() {
        match subtree_end(r, p) {
            Some(q) => if p < q <= r.len() {
                seq![p] + child_positions(r, q, (k - 1) as nat)
            } else {
                seq![]
            },
            None => seq![],
        }
    } else {
        seq![]
    }
}

/// Number of parts in the subtree listed at `x`.
pub open spec fn part_size(r: Seq<MailPartView>, x: int) -> nat {
    match subtree_end(r, x) {
        Some(e) => if e > x {
            (e - x) as nat
        } else {
            0
        },
        None => 0,
    }
}

/// Number of parts in the subtrees listed at the positions of `s`.
pub open spec fn stack_weight(r: Seq<MailPartView>, s: Seq<int>) -> nat
    decreases s.len(),
{
    if s.len() == 0 {
        0
    } else {
        stack_weight(r, s.drop_last()) + part_size(r, s.last())
    }
}

/// A listed subtree ends after its root, and within the listing.
pub proof fn lemma_children_end_bounds(r: Seq<MailPartView>, p: int, k: nat)
    requires
        0 <= p <= r.len(),
    ensures
        children_end(r, p, k) matches Some(e) ==> p <= e <= r.len(),
    decreases r.len() - p, k,
{
    if k > 0 && 0 <= p < r.len() {
        if let Some(q) = subtree_end(r, p) {
            if p < q <= r.len() {
                lemma_children_end_bounds(r, q, (k - 1) as nat);
            }
        }
    }
}

/// The subtree listed at `x` ends after `x`.
pub proof fn lemma_subtree_end_bounds(r: Seq<MailPartView>, x: int)
    ensures
        subtree_end(r, x) matches Some(e) ==> 0 <= x < e <= r.len(),
{
    if 0 <= x < r.len() {
        lemma_children_end_bounds(r, x + 1, r[x].subpart_count);
    }
}

pub proof fn lemma_stack_weight_append(r: Seq<MailPartView>, a: Seq<int>, b: Seq<int>)
    ensures
        stack_weight(r, a + b) == stack_weight(r, a) + stack_weight(r, b),
    decreases b.len(),
{
    if b.len() == 0 {
        assert(a + b =~= a);
    } else {
        assert((a + b).drop_last() =~= a + b.drop_last());
        lemma_stack_weight_append(r, a, b.drop_last());
    }
}

/// When `k` sibling subtrees listed from `p` end at `e`, their positions are
/// `k` positions of complete subtrees, `e - p` parts in all.
pub proof fn lemma_child_positions(r: Seq<MailPartView>, p: int, k: nat)
    requires
        children_end(r, p, k) is Some,
    ensures
        child_positions(r, p, k).len() == k,
        stack_weight(r, child_positions(r, p, k)) == children_end(r, p, k)->0 - p,
        forall|i: int|
            0 <= i < k ==> #[trigger] subtree_end(r, child_positions(r, p, k)[i]) is Some,
    decreases r.len() - p, k,
{
    if k > 0 {
        let q = subtree_end(r, p)->0;
        lemma_child_positions(r, q, (k - 1) as nat);
        let rest = child_positions(r, q, (k - 1) as nat);
        assert(child_positions(r, p, k) == seq![p] + rest);
        lemma_stack_weight_append(r, seq![p], rest);
        assert(seq![p].drop_last() =~= Seq::<int>::empty());
        assert(seq![p].last() == p);
        assert(stack_weight(r, Seq::<int>::empty()) == 0);
        assert(part_size(r, p) == q - p);
        assert(stack_weight(r, seq![p]) == q - p);
        assert forall|i: int| 0 <= i < k implies #[trigger] subtree_end(
            r,
            child_positions(r, p, k)[i],
        ) is Some by {
            if i > 0 {
                assert(child_positions(r, p, k)[i] == rest[i - 1]);
            }
        }
    }
}

/// An `Option<usize>` read as an `Option<int>`.
pub open spec fn opt_int(o: Option<usize>) -> Option<int> {
    match o {
        Some(v) => Some(v as int),
        None => None,
    }
}

/// `subtree_end` of every listed part, computed from the last part back.
pub fn subtree_ends(parts: &Vec<MailPart>) -> (ends: Vec<Option<usize>>)
    ensures
        ends.len() == parts.len(),
        forall|i: int|
            0 <= i < parts.len() ==> opt_int(#[trigger] ends@[i]) == subtree_end(parts_view(parts@), i),
{
    let ghost r = parts_view(parts@);
    let n = parts.len();
    let mut ends: Vec<Option<usize>> = Vec::new();
    let mut j: usize = 0;
    while j < n
        invariant
            j <= n == parts.len(),
            ends.len() == j,
        decreases n - j,
    {
        ends.push(None);
        j = j + 1;
    }
    let mut i: usize = n;
    while i > 0
        invariant
            i <= n == parts.len() == ends.len(),
            r == parts_view(parts@),
            forall|j: int| i <= j < n ==> opt_int(#[trigger] ends@[j]) == subtree_end(r, j),
        decreases i,
    {
        i = i - 1;
        assert(r[i as int] == parts@[i as int]@);
        let count = parts[i].subpart_count;
        // The end of the subtrees of `count` children, the first listed at i + 1.
        let mut p: usize = i + 1;
        let mut k: usize = 0;
        let mut end: Option<usize> = None;
        let mut done = false;
        while !done
            invariant
                i < n == parts.len() == ends.len(),
                r == parts_view(parts@),
                forall|j: int| i < j < n ==> opt_int(#[trigger] ends@[j]) == subtree_end(r, j),
                i + 1 <= p <= n,
                k <= count,
                !done ==> children_end(r, i + 1, count as nat) == children_end(r, p as int, (count - k) as nat),
                done ==> opt_int(end) == children_end(r, i + 1, count as nat),
            decreases (if done { 0int } else { 1int }), n - p, count - k,
        {
            if k == count {
                end = Some(p);
                done = true;
            } else if p >= n {
                end = None;
                done = true;
            } else {
                match ends[p] {
                    Some(q) => {
                        if p < q && q <= n {
                            p = q;
                            k = k + 1;
                        } else {
                            end = None;
                            done = true;
                        }
                    },
                    None => {
                        end = None;
                        done = true;
                    },
                }
            }
        }
        ends.set(i, end);
    }
    ends
}

} // verus!
