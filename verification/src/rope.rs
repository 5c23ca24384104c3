use std::ops::Range;
use vstd::prelude::*;
use vstd::slice::slice_subrange;
use xi_rope::tree::{Cursor, Leaf, Node, NodeInfo};
use xi_rope::Interval;
use crate::base::Base;

verus! {

/// The most symbols one leaf holds.
pub const MAX_LEAF: usize = 1024;

/// The fewest symbols a leaf inside a tree should hold.
pub const MIN_LEAF: usize = MAX_LEAF / 2 - 1;

/// `xi_rope::Interval`: a half-open range of offsets, `start` up to `end`.
#[verifier::external_type_specification]
pub struct ExInterval(Interval);

/// A leaf of the tree: a dense run of at most `MAX_LEAF` symbols.
#[derive(Clone)]
pub struct SeqLeaf {
    data: Vec<Base>,
}

impl View for SeqLeaf {
    type V = Seq<Base>;

    closed spec fn view(&self) -> Seq<Base> {
        self.data@
    }
}

/// Where a leaf of `total` symbols, too long to stay whole, is cut: the left
/// part is as long as it may be while the right part keeps `MIN_LEAF` symbols.
pub open spec fn split_point(total: int) -> int {
    if total - MIN_LEAF < MAX_LEAF {
        total - MIN_LEAF
    } else {
        MAX_LEAF as int
    }
}

/// How many of `left` symbols the next leaf takes when a run is cut into
/// leaves.
pub open spec fn next_leaf(left: int) -> int {
    if left > MAX_LEAF {
        split_point(left)
    } else {
        left
    }
}

/// Cutting a run into leaves never makes a leaf that is empty or too long,
/// and never leaves a rest that is too short for a leaf of its own: what is
/// left after a leaf is nothing or at least `MIN_LEAF` symbols.
pub proof fn lemma_next_leaf(left: int)
    requires
        left > 0,
    ensures
        0 < next_leaf(left) <= MAX_LEAF,
        next_leaf(left) <= left,
        left - next_leaf(left) == 0 || left - next_leaf(left) >= MIN_LEAF,
        left > MAX_LEAF ==> next_leaf(left) >= MIN_LEAF,
{
}

/// The part of a run of `len` symbols that the range `start..end` covers,
/// with both ends brought back inside the run.
pub open spec fn clip(start: int, end: int, len: int) -> (int, int) {
    let hi = if end < len { end } else { len };
    let lo = if start < hi { start } else { hi };
    (lo, hi)
}

/// The symbol at position `i` of `s`, or nothing where `s` has no such
/// position.
pub open spec fn symbol_at(s: Seq<Base>, i: int) -> Option<Base> {
    if 0 <= i < s.len() {
        Some(s[i])
    } else {
        None
    }
}

/// The part of `s` from position `lo` up to position `hi`. A `hi` past the
/// end counts as the end, and a range that is empty or runs backwards gives
/// nothing.
pub open spec fn part(s: Seq<Base>, lo: int, hi: int) -> Seq<Base> {
    let (from, to) = clip(lo, hi, s.len() as int);
    s.subrange(from, to)
}

impl SeqLeaf {
    /// A leaf is well formed when it holds no more than `MAX_LEAF` symbols.
    pub open spec fn wf(&self) -> bool {
        self@.len() <= MAX_LEAF
    }

    pub fn from_slice(source: &[Base]) -> (leaf: Self)
        requires
            source@.len() <= MAX_LEAF,
        ensures
            leaf@ == source@,
            leaf.wf(),
    {
        let mut leaf = SeqLeaf::default();
        leaf.extend(source);
        leaf
    }

    pub fn extend(&mut self, source: &[Base])
        requires
            old(self)@.len() + source@.len() <= MAX_LEAF,
        ensures
            final(self)@ == old(self)@ + source@,
            final(self).wf(),
    {
        let n = source.len();
        let mut i: usize = 0;
        while i < n
            invariant
                n == source@.len(),
                i <= n,
                self.data@ == old(self).data@ + source@.take(i as int),
            decreases n - i,
        {
            self.data.push(source[i]);
            i += 1;
        }
        assert(source@.take(n as int) == source@);
    }

    /// Cuts the leaf down to its first `new_size` symbols and hands back the
    /// ones cut off.
    pub fn shrink(&mut self, new_size: usize) -> (rest: Vec<Base>)
        requires
            new_size <= old(self)@.len(),
        ensures
            final(self)@ == old(self)@.take(new_size as int),
            rest@ == old(self)@.skip(new_size as int),
    {
        self.data.split_off(new_size)
    }

    /// The symbol at `offset`, if the leaf is that long.
    pub fn get(&self, offset: usize) -> (r: Option<Base>)
        ensures
            r == symbol_at(self@, offset as int),
    {
        if offset < self.data.len() {
            Some(self.data[offset])
        } else {
            None
        }
    }
}

impl Default for SeqLeaf {
    fn default() -> (leaf: Self)
        ensures
            leaf@ == Seq::<Base>::empty(),
    {
        SeqLeaf { data: Vec::new() }
    }
}

impl Leaf for SeqLeaf {
    fn len(&self) -> (n: usize)
        ensures
            n == self@.len(),
    {
        self.data.len()
    }

    fn is_ok_child(&self) -> (ok: bool)
        ensures
            ok == (self@.len() >= MIN_LEAF),
    {
        self.data.len() >= MIN_LEAF
    }

    /// Appends the part of `other` that `iv` covers. Where the result would
    /// not fit in one leaf it is cut at `split_point`, and the right part is
    /// handed back.
    fn push_maybe_split(&mut self, other: &Self, iv: Interval) -> (rest: Option<Self>)
        ensures
            ({
                let (lo, hi) = clip(iv.start as int, iv.end as int, other@.len() as int);
                let all = old(self)@ + other@.subrange(lo, hi);
                if all.len() <= MAX_LEAF {
                    rest is None && final(self)@ == all
                } else {
                    &&& rest is Some
                    &&& final(self)@ == all.take(split_point(all.len() as int))
                    &&& rest.unwrap()@ == all.skip(split_point(all.len() as int))
                }
            }),
            old(self).wf() && other.wf() ==> final(self).wf() && (rest matches Some(r) ==> r.wf()),
            rest matches Some(r) ==> final(self)@.len() >= MIN_LEAF && r@.len() >= MIN_LEAF,
    {
        let hi = if iv.end < other.data.len() {
            iv.end
        } else {
            other.data.len()
        };
        let lo = if iv.start < hi {
            iv.start
        } else {
            hi
        };
        let mut i: usize = lo;
        while i < hi
            invariant
                lo <= i <= hi <= other.data@.len(),
                self.data@ == old(self).data@ + other.data@.subrange(lo as int, i as int),
            decreases hi - i,
        {
            self.data.push(other.data[i]);
            i += 1;
        }
        let total = self.data.len();
        if total <= MAX_LEAF {
            None
        } else {
            let at = if total - MIN_LEAF < MAX_LEAF {
                total - MIN_LEAF
            } else {
                MAX_LEAF
            };
            let right = self.data.split_off(at);
            Some(SeqLeaf { data: right })
        }
    }
}

/// What an inner node of the tree keeps about the leaves below it: nothing
/// but their length, which the tree itself counts.
#[derive(Clone, Copy)]
pub struct SeqInfo {}

impl NodeInfo for SeqInfo {
    type L = SeqLeaf;

    fn accumulate(&mut self, _other: &Self) {
    }

    fn compute_info(_leaf: &SeqLeaf) -> Self {
        SeqInfo {  }
    }
}

/// A persistent sequence of symbols: a balanced tree of `xi_rope` whose
/// leaves are `SeqLeaf`s. Copies share their nodes.
#[verifier::external_body]
pub struct Rope {
    node: Node<SeqInfo>,
}

/// A leaf of a rope together with an offset into that leaf.
type LeafAt<'a> = Option<(&'a SeqLeaf, usize)>;

/// The symbols that a rope holds, in order.
pub uninterp spec fn rope_symbols(rope: Rope) -> Seq<Base>;

impl View for Rope {
    type V = Seq<Base>;

    open spec fn view(&self) -> Seq<Base> {
        rope_symbols(*self)
    }
}

impl Clone for Rope {
    /// `Node::clone`: a second handle on the same tree, so with the same
    /// symbols.
    #[verifier::external_body]
    fn clone(&self) -> (r: Self)
        ensures
            rope_symbols(r) == rope_symbols(*self),
    {
        Rope { node: self.node.clone() }
    }
}

impl Rope {
    /// `Node::from_leaf`: the tree of one leaf holds that leaf's symbols.
    #[verifier::external_body]
    fn from_leaf(leaf: SeqLeaf) -> (r: Rope)
        requires
            leaf.wf(),
        ensures
            rope_symbols(r) == leaf@,
    {
        Rope { node: Node::from_leaf(leaf) }
    }

    /// `Node::concat`: the symbols of the left tree followed by those of the
    /// right one. The tree counts its symbols in a `usize`, so the two
    /// lengths together must fit in one.
    #[verifier::external_body]
    fn join(left: Rope, right: Rope) -> (r: Rope)
        requires
            rope_symbols(left).len() + rope_symbols(right).len() <= usize::MAX,
        ensures
            rope_symbols(r) == rope_symbols(left) + rope_symbols(right),
    {
        Rope { node: Node::concat(left.node, right.node) }
    }

    /// `Node::subseq` on a range inside the tree: the symbols from `lo` up to
    /// `hi`.
    #[verifier::external_body]
    fn slice(&self, lo: usize, hi: usize) -> (r: Rope)
        requires
            lo <= hi <= rope_symbols(*self).len(),
        ensures
            rope_symbols(r) == rope_symbols(*self).subrange(lo as int, hi as int),
    {
        Rope { node: self.node.subseq(lo..hi) }
    }

    /// `Cursor::new` followed by `Cursor::get_leaf`: a leaf of the tree and
    /// an offset into it. For an offset inside the tree the leaf holds that
    /// symbol at the offset given; for one at or past the end the offset
    /// given is at or past the end of the leaf.
    #[verifier::external_body]
    fn leaf_at(&self, offset: usize) -> (found: LeafAt<'_>)
        ensures
            offset < rope_symbols(*self).len() ==> found is Some && found.unwrap().1
                < found.unwrap().0@.len() && found.unwrap().0@[found.unwrap().1 as int]
                == rope_symbols(*self)[offset as int],
            offset >= rope_symbols(*self).len() && found is Some ==> found.unwrap().1
                >= found.unwrap().0@.len(),
    {
        Cursor::new(&self.node, offset).get_leaf()
    }

    /// `Node::len`: how many symbols the tree holds.
    #[verifier::external_body]
    pub fn len(&self) -> (n: usize)
        ensures
            n == rope_symbols(*self).len(),
    {
        self.node.len()
    }

    /// How many of `left` symbols go into the next leaf when a run is cut
    /// into leaves: all of them if they fit into one leaf, and else as many
    /// as a leaf may hold while `MIN_LEAF` symbols are left for what follows.
    pub fn leaf_size(left: usize) -> (size: usize)
        ensures
            size == next_leaf(left as int),
    {
        if left > MAX_LEAF {
            if left - MIN_LEAF < MAX_LEAF {
                left - MIN_LEAF
            } else {
                MAX_LEAF
            }
        } else {
            left
        }
    }

    /// Builds a rope that holds exactly the symbols of `v`. Up to `MAX_LEAF`
    /// symbols go into a single leaf. A longer run is cut greedily, leaf by
    /// leaf, each as long as `leaf_size` says.
    pub fn from_slice(v: &[Base]) -> (r: Rope)
        ensures
            r@ == v@,
    {
        let n = v.len();
        if n <= MAX_LEAF {
            return Rope::from_leaf(SeqLeaf::from_slice(v));
        }
        let mut rope = Rope::from_leaf(SeqLeaf::default());
        let mut done: usize = 0;
        while done < n
            invariant
                n == v@.len(),
                done <= n,
                rope@ == v@.take(done as int),
            decreases n - done,
        {
            let size = Rope::leaf_size(n - done);
            let leaf = SeqLeaf::from_slice(slice_subrange(v, done, done + size));
            rope = Rope::join(rope, Rope::from_leaf(leaf));
            assert(v@.take(done as int) + v@.subrange(done as int, done + size) == v@.take(
                done + size,
            ));
            done += size;
        }
        assert(v@.take(n as int) == v@);
        rope
    }

    /// The symbol at `offset`, or nothing at or past the end.
    pub fn nth(&self, offset: usize) -> (r: Option<Base>)
        ensures
            r == symbol_at(self@, offset as int),
    {
        match self.leaf_at(offset) {
            Some((leaf, at)) => leaf.get(at),
            None => None,
        }
    }

    /// The symbols from `range.start` up to `range.end`, as a rope that
    /// shares nodes with this one. An end past the rope counts as the end of
    /// the rope, and a range that is empty or runs backwards gives the empty
    /// rope.
    pub fn subseq(&self, range: Range<usize>) -> (r: Rope)
        ensures
            r@ == part(self@, range.start as int, range.end as int),
    {
        let n = self.len();
        let hi = if range.end < n {
            range.end
        } else {
            n
        };
        let lo = if range.start < hi {
            range.start
        } else {
            hi
        };
        self.slice(lo, hi)
    }

    /// The symbols of this rope followed by those of `other`.
    pub fn concat(&self, other: &Self) -> (r: Rope)
        requires
            self@.len() + other@.len() <= usize::MAX,
        ensures
            r@ == self@ + other@,
    {
        Rope::join(self.clone(), other.clone())
    }
}

} // verus!
