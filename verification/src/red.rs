//! Red trees: positioned views over green trees, with parent links, child
//! indexes and absolute text offsets.
use crate::green::{
    first_token_path, last_token_path, lemma_end_token_paths, all_wf, built_from, dump_kids, dump_spec, lemma_sum_widths_insert, lemma_sum_widths_remove, elements_at, lemma_end_to_end_offsets, lemma_end_to_end_order, lemma_prefix_width, lemma_sum_widths_update,
    lemma_tokens_kids_tile, lemma_tokens_split, lemma_tokens_tile, prefix_width, prepend_all, splice_seq,
    sum_widths, tokens_before, tokens_of, tokens_of_kids, Green,
};
use crate::lang::Language;
use crate::text::{TextRange, TextSize};
use std::sync::Arc;
use vstd::prelude::*;

verus! {

struct Parent<L: Language> {
    node: Red<L>,
    index: usize,
}

/// Positioned red node data: a green element with its parent, its index in
/// the parent and its absolute text offset.
pub struct RedNode<L: Language> {
    green: Green<L>,
    parent: Option<Parent<L>>,
    offset: TextSize,
}

/// Positioned view over an immutable green tree.
///
/// Red nodes are created lazily from green children. A red node stands for a
/// position in the tree that its root red node was made from: the root green
/// element together with the path of child indexes that leads to it.
pub struct Red<L: Language>(Arc<RedNode<L>>);

impl<L: Language> Red<L> {
    /// The green element at this position.
    pub closed spec fn green_of(self) -> Green<L> {
        self.0.green
    }

    /// The parent red node, `None` for a root.
    pub closed spec fn parent_of(self) -> Option<Red<L>> {
        match self.0.parent {
            Some(p) => Some(p.node),
            None => None,
        }
    }

    /// The index of this node in its parent, `None` for a root.
    pub closed spec fn index_of(self) -> Option<int> {
        match self.0.parent {
            Some(p) => Some(p.index as int),
            None => None,
        }
    }

    /// The absolute start offset.
    pub closed spec fn offset_of(self) -> nat {
        self.0.offset@
    }

    /// The red node is consistent with the tree it was made from: a root
    /// starts at offset 0 over a well-formed green element; any other node is
    /// a child of its (consistent) parent at its index, placed right after
    /// its preceding siblings.
    pub closed spec fn wf(self) -> bool
        decreases self,
    {
        match self.0.parent {
            None => self.0.offset@ == 0 && self.0.green.wf(),
            Some(p) => {
                &&& p.node.wf()
                &&& p.index < p.node.0.green.kids().len()
                &&& self.0.green == p.node.0.green.kids()[p.index as int]
                &&& self.0.offset@ == p.node.0.offset@ + prefix_width(
                    p.node.0.green.kids(),
                    p.index as int,
                )
            },
        }
    }

    /// The green element of the root of this red tree.
    pub closed spec fn root_of(self) -> Green<L>
        decreases self,
    {
        match self.0.parent {
            None => self.0.green,
            Some(p) => p.node.root_of(),
        }
    }

    /// The child indexes that lead from the root to this node.
    pub closed spec fn path_of(self) -> Seq<int>
        decreases self,
    {
        match self.0.parent {
            None => Seq::empty(),
            Some(p) => p.node.path_of().push(p.index as int),
        }
    }

    /// This is the consistent red node for position `path` in the tree rooted
    /// at `root`.
    pub open spec fn at(self, root: Green<L>, path: Seq<int>) -> bool {
        &&& self.wf()
        &&& self.root_of() == root
        &&& self.path_of() == path
    }

    /// The absolute end offset.
    pub open spec fn end_of(self) -> nat {
        self.offset_of() + self.green_of().width_of()
    }

    /// What a consistent red node says of its tree.
    pub proof fn lemma_model(self)
        requires
            self.wf(),
        ensures
            self.root_of().wf(),
            self.root_of().valid_path(self.path_of()),
            self.root_of().subtree(self.path_of()) == self.green_of(),
            self.root_of().offset_at(self.path_of()) == self.offset_of(),
            self.green_of().wf(),
            self.end_of() <= self.root_of().width_of() <= u32::MAX,
            self.parent_of() is None <==> self.path_of().len() == 0,
            self.parent_of() is None <==> self.index_of() is None,
            self.parent_of() matches Some(p) ==> {
                &&& p.wf()
                &&& p.root_of() == self.root_of()
                &&& p.path_of() == self.path_of().drop_last()
                &&& self.index_of() == Some(self.path_of().last())
                &&& 0 <= self.path_of().last() < p.green_of().kids().len()
                &&& self.green_of() == p.green_of().kids()[self.path_of().last()]
                &&& self.offset_of() == p.offset_of() + prefix_width(p.green_of().kids(), self.path_of().last())
            },
        decreases self,
    {
        match self.0.parent {
            None => {
                self.green_of().lemma_path_within(Seq::empty());
                self.green_of().lemma_wf();
            },
            Some(p) => {
                p.node.lemma_model();
                let pp = p.node.path_of();
                assert(self.path_of().drop_last() =~= pp);
                self.root_of().lemma_path_push(pp, p.index as int);
                self.root_of().lemma_path_within(self.path_of());
            },
        }
    }

    /// A consistent red node is determined by its root and path.
    pub proof fn lemma_unique(self, other: Red<L>)
        requires
            self.wf(),
            other.wf(),
            self.root_of() == other.root_of(),
            self.path_of() == other.path_of(),
        ensures
            self == other,
        decreases self,
    {
        self.lemma_model();
        other.lemma_model();
        let a = *self.0;
        let b = *other.0;
        a.offset.lemma_view_injective(b.offset);
        if a.parent is Some && b.parent is Some {
            let p = a.parent->0;
            let q = b.parent->0;
            p.node.lemma_unique(q.node);
            assert(p == q);
        }
        assert(a == b);
    }
}

impl<L: Language> Red<L> {
    /// `self` is the red node for child `i` of `parent`.
    pub open spec fn is_child_of(self, parent: Red<L>, i: int) -> bool {
        &&& self.wf()
        &&& self.parent_of() == Some(parent)
        &&& self.index_of() == Some(i)
        &&& 0 <= i < parent.green_of().kids().len()
        &&& self.green_of() == parent.green_of().kids()[i]
        &&& self.offset_of() == parent.offset_of() + prefix_width(parent.green_of().kids(), i)
        &&& self.root_of() == parent.root_of()
        &&& self.path_of() == parent.path_of().push(i)
    }
}

impl<L: Language> Clone for Red<L> {
    fn clone(&self) -> (r: Self)
        ensures
            r == *self,
    {
        Red(self.0.clone())
    }
}

impl<L: Language> PartialEq for Red<L> {
    /// Red nodes compare by the identity of their green elements.
    fn eq(&self, other: &Self) -> (r: bool)
        ensures
            r ==> self.green_of() == other.green_of(),
    {
        self.0.green == other.0.green
    }
}

impl<L: Language> vstd::std_specs::cmp::PartialEqSpecImpl for Red<L> {
    /// `==` on red nodes is the identity of their green allocations, which
    /// the spec language cannot see: contracts do not read it as a spec
    /// function.
    open spec fn obeys_eq_spec() -> bool {
        false
    }

    open spec fn eq_spec(&self, other: &Self) -> bool {
        self.green_of() == other.green_of()
    }
}

impl<L: Language> Eq for Red<L> {

}

impl<L: Language> std::hash::Hash for Red<L> {
    /// Hashes the green element's identity, in line with the equality.
    fn hash<H: std::hash::Hasher>(&self, state: &mut H) {
        self.0.green.hash(state)
    }
}

impl<L: Language> Red<L> {
    /// Creates a red root view at offset 0.
    pub fn new_root(green: Green<L>) -> (r: Self)
        requires
            green.wf(),
        ensures
            r.at(green, Seq::empty()),
            r.green_of() == green,
            r.parent_of() is None,
            r.offset_of() == 0,
    {
        Red(Arc::new(RedNode { green, parent: None, offset: TextSize::new(0) }))
    }

    /// The red node for child `index` of `parent`.
    fn with_parent(parent: &Self, index: usize) -> (r: Self)
        requires
            parent.wf(),
            index < parent.green_of().kids().len(),
        ensures
            r.is_child_of(*parent, index as int),
    {
        proof {
            parent.lemma_model();
        }
        let kids = parent.0.green.children().unwrap();
        let green = kids[index].clone();
        let rel = parent.0.green.child_offset(index);
        let offset = TextSize::new(parent.0.offset.to_u32() + rel.to_u32());
        let r = Red(Arc::new(RedNode { green, parent: Some(Parent { node: parent.clone(), index }), offset }));
        proof {
            let pp = parent.path_of();
            assert(r.path_of() == pp.push(index as int));
        }
        r
    }

    /// Returns the underlying green element.
    pub fn green(&self) -> (r: &Green<L>)
        ensures
            *r == self.green_of(),
    {
        &self.0.green
    }

    /// Returns this element's syntax kind.
    pub fn kind(&self) -> (r: L::Kind)
        ensures
            r == self.green_of().kind_of(),
    {
        self.0.green.kind()
    }

    /// Returns this red node's absolute start offset.
    pub fn offset(&self) -> (r: TextSize)
        ensures
            r@ == self.offset_of(),
    {
        self.0.offset
    }

    /// Returns this element's text width.
    pub fn width(&self) -> (r: TextSize)
        ensures
            r@ == self.green_of().width_of(),
    {
        self.0.green.width()
    }

    /// Returns this red node's absolute text range.
    pub fn range(&self) -> (r: TextRange)
        requires
            self.wf(),
        ensures
            r.start_spec() == self.offset_of(),
            r.end_spec() == self.end_of(),
    {
        proof {
            self.lemma_model();
        }
        TextRange::at(self.0.offset, self.0.green.width())
    }

    /// Returns this element's payload.
    pub fn payload(&self) -> (r: &L::Payload)
        ensures
            *r == self.green_of().payload_of(),
    {
        self.0.green.payload()
    }

    /// Returns whether this element is a token.
    pub fn is_token(&self) -> (r: bool)
        ensures
            r == self.green_of().is_token_of(),
    {
        self.0.green.is_token()
    }

    /// Returns the number of children, or `None` for tokens.
    pub fn child_count(&self) -> (r: Option<usize>)
        ensures
            r is Some <==> !self.green_of().is_token_of(),
            r matches Some(n) ==> n == self.green_of().kids().len(),
    {
        self.0.green.child_count()
    }

    /// Returns the child at `index`.
    pub fn child(&self, index: usize) -> (r: Option<Self>)
        requires
            self.wf(),
        ensures
            r is Some <==> index < self.green_of().kids().len(),
            r matches Some(c) ==> c.is_child_of(*self, index as int),
    {
        let n = match self.0.green.child_count() {
            Some(n) => n,
            None => 0,
        };
        if index < n {
            Some(Red::with_parent(self, index))
        } else {
            None
        }
    }
}

/// Children of a red node not yet materialized, walked from both ends.
///
/// The walk carries offsets from both ends so that children can be
/// materialized from either end without scanning from the start.
pub struct LazyChildren<L: Language> {
    parent: Red<L>,
    front_index: usize,
    front_offset: TextSize,
    back_index: usize,
    back_offset: TextSize,
}

/// A child not yet materialized: its green data, index and absolute offset.
pub struct LazyChild<L: Language> {
    parent: Red<L>,
    index: usize,
    green: Green<L>,
    offset: TextSize,
}

impl<L: Language> LazyChild<L> {
    /// The parent red node.
    pub closed spec fn parent_spec(self) -> Red<L> {
        self.parent
    }

    /// The index of this child in its parent.
    pub closed spec fn index_spec(self) -> int {
        self.index as int
    }

    /// The child's green data and offset are those of child `index` of `parent`.
    pub closed spec fn wf(self) -> bool {
        &&& self.parent.wf()
        &&& self.index < self.parent.green_of().kids().len()
        &&& self.green == self.parent.green_of().kids()[self.index as int]
        &&& self.offset@ == self.parent.offset_of() + prefix_width(
            self.parent.green_of().kids(),
            self.index as int,
        )
    }

    /// Returns this child's absolute text range.
    pub fn range(&self) -> (r: TextRange)
        requires
            self.wf(),
        ensures
            r.start_spec() == self.parent_spec().offset_of() + prefix_width(
                self.parent_spec().green_of().kids(),
                self.index_spec(),
            ),
            r.end_spec() == r.start_spec() + self.parent_spec().green_of().kids()[self.index_spec()].width_of(),
    {
        proof {
            self.parent.lemma_model();
            self.parent.green_of().lemma_wf();
            lemma_prefix_width(self.parent.green_of().kids(), self.index as int, self.index as int);
            lemma_prefix_width(
                self.parent.green_of().kids(),
                self.index as int + 1,
                self.parent.green_of().kids().len() as int,
            );
        }
        TextRange::at(self.offset, self.green.width())
    }

    /// Materializes this lazy child as a red node.
    pub fn into_red(self) -> (r: Red<L>)
        requires
            self.wf(),
        ensures
            r.is_child_of(self.parent_spec(), self.index_spec()),
    {
        let r = Red(
            Arc::new(
                RedNode {
                    green: self.green,
                    parent: Some(Parent { node: self.parent, index: self.index }),
                    offset: self.offset,
                },
            ),
        );
        proof {
            self.parent.lemma_model();
        }
        r
    }
}

impl<L: Language> LazyChildren<L> {
    /// The red node whose children are walked.
    pub closed spec fn parent_spec(self) -> Red<L> {
        self.parent
    }

    /// The index of the next child from the front.
    pub closed spec fn front(self) -> int {
        self.front_index as int
    }

    /// One past the index of the next child from the back.
    pub closed spec fn back(self) -> int {
        self.back_index as int
    }

    /// The indexes lie within the children and the offsets match them.
    pub closed spec fn wf(self) -> bool {
        let kids = self.parent.green_of().kids();
        &&& self.parent.wf()
        &&& self.front_index <= self.back_index <= kids.len()
        &&& self.front_offset@ == self.parent.offset_of() + prefix_width(kids, self.front_index as int)
        &&& self.back_offset@ == self.parent.offset_of() + prefix_width(kids, self.back_index as int)
    }

    /// The walk stays within the parent's children.
    pub proof fn lemma_bounds(self)
        requires
            self.wf(),
        ensures
            0 <= self.front() <= self.back() <= self.parent_spec().green_of().kids().len(),
    {
    }

    /// The next child from the front, or `None` once the two ends meet.
    pub fn next(&mut self) -> (r: Option<LazyChild<L>>)
        requires
            old(self).wf(),
        ensures
            final(self).wf(),
            final(self).parent_spec() == old(self).parent_spec(),
            final(self).back() == old(self).back(),
            r is Some <==> old(self).front() < old(self).back(),
            r is None ==> final(self).front() == old(self).front(),
            r matches Some(c) ==> {
                &&& c.wf()
                &&& c.parent_spec() == old(self).parent_spec()
                &&& c.index_spec() == old(self).front()
                &&& final(self).front() == old(self).front() + 1
            },
    {
        let parent = self.parent.clone();
        if self.front_index >= self.back_index {
            return None;
        }
        let kids = parent.0.green.children().unwrap();
        let green = kids[self.front_index].clone();
        let offset = self.front_offset;
        let index = self.front_index;
        proof {
            parent.lemma_model();
            parent.green_of().lemma_wf();
            let k = parent.green_of().kids();
            lemma_prefix_width(k, index as int, index as int);
            lemma_prefix_width(k, index as int + 1, k.len() as int);
        }
        self.front_index = self.front_index + 1;
        self.front_offset = TextSize::new(self.front_offset.to_u32() + green.width().to_u32());
        Some(LazyChild { parent, index, green, offset })
    }

    /// The next child from the back, or `None` once the two ends meet.
    pub fn next_back(&mut self) -> (r: Option<LazyChild<L>>)
        requires
            old(self).wf(),
        ensures
            final(self).wf(),
            final(self).parent_spec() == old(self).parent_spec(),
            final(self).front() == old(self).front(),
            r is Some <==> old(self).front() < old(self).back(),
            r is None ==> final(self).back() == old(self).back(),
            r matches Some(c) ==> {
                &&& c.wf()
                &&& c.parent_spec() == old(self).parent_spec()
                &&& c.index_spec() == old(self).back() - 1
                &&& final(self).back() == old(self).back() - 1
            },
    {
        let parent = self.parent.clone();
        if self.front_index >= self.back_index {
            return None;
        }
        self.back_index = self.back_index - 1;
        let kids = parent.0.green.children().unwrap();
        let green = kids[self.back_index].clone();
        proof {
            parent.lemma_model();
            parent.green_of().lemma_wf();
            let k = parent.green_of().kids();
            lemma_prefix_width(k, self.back_index as int, self.back_index as int);
        }
        self.back_offset = TextSize::new(self.back_offset.to_u32() - green.width().to_u32());
        Some(LazyChild { parent, index: self.back_index, green, offset: self.back_offset })
    }
}

/// The red children of a node, walked from both ends. Tokens have no
/// children, so their walk is empty.
pub struct Children<L: Language>(LazyChildren<L>);

impl<L: Language> Children<L> {
    /// The red node whose children are walked.
    pub open spec fn parent_spec(self) -> Red<L> {
        self.lazy().parent_spec()
    }

    /// The index of the next child from the front.
    pub open spec fn front(self) -> int {
        self.lazy().front()
    }

    /// One past the index of the next child from the back.
    pub open spec fn back(self) -> int {
        self.lazy().back()
    }

    pub closed spec fn lazy(self) -> LazyChildren<L> {
        self.0
    }

    pub open spec fn wf(self) -> bool {
        self.lazy().wf()
    }

    /// The indexes of the children still to come, in order.
    pub open spec fn remaining(self) -> Seq<int> {
        Seq::new((self.back() - self.front()) as nat, |k: int| self.front() + k)
    }

    /// The next child from the front, or `None` once the two ends meet.
    pub fn next(&mut self) -> (r: Option<Red<L>>)
        requires
            old(self).wf(),
        ensures
            final(self).wf(),
            final(self).parent_spec() == old(self).parent_spec(),
            final(self).back() == old(self).back(),
            r is Some <==> old(self).front() < old(self).back(),
            r is None ==> final(self).front() == old(self).front(),
            r matches Some(c) ==> {
                &&& c.is_child_of(old(self).parent_spec(), old(self).front())
                &&& final(self).front() == old(self).front() + 1
            },
            r is Some <==> old(self).remaining().len() > 0,
            r matches Some(c) ==> c.is_child_of(old(self).parent_spec(), old(self).remaining()[0]),
            final(self).remaining() == if r is Some {
                old(self).remaining().drop_first()
            } else {
                old(self).remaining()
            },
    {
        let ghost before = self.remaining();
        let r = match self.0.next() {
            Some(c) => Some(c.into_red()),
            None => None,
        };
        proof {
            if r is Some {
                assert(self.remaining() =~= before.drop_first());
            }
        }
        r
    }

    /// The next child from the back, or `None` once the two ends meet.
    pub fn next_back(&mut self) -> (r: Option<Red<L>>)
        requires
            old(self).wf(),
        ensures
            final(self).wf(),
            final(self).parent_spec() == old(self).parent_spec(),
            final(self).front() == old(self).front(),
            r is Some <==> old(self).front() < old(self).back(),
            r is None ==> final(self).back() == old(self).back(),
            r matches Some(c) ==> {
                &&& c.is_child_of(old(self).parent_spec(), old(self).back() - 1)
                &&& final(self).back() == old(self).back() - 1
            },
            r is Some <==> old(self).remaining().len() > 0,
            r matches Some(c) ==> c.is_child_of(old(self).parent_spec(), old(self).remaining().last()),
            final(self).remaining() == if r is Some {
                old(self).remaining().drop_last()
            } else {
                old(self).remaining()
            },
    {
        let ghost before = self.remaining();
        let r = match self.0.next_back() {
            Some(c) => Some(c.into_red()),
            None => None,
        };
        proof {
            if r is Some {
                assert(self.remaining() =~= before.drop_last());
            }
        }
        r
    }
}

impl<L: Language> Red<L> {
    fn lazy_children(&self) -> (r: LazyChildren<L>)
        requires
            self.wf(),
        ensures
            r.wf(),
            r.parent_spec() == *self,
            r.front() == 0,
            r.back() == self.green_of().kids().len(),
    {
        let range = self.range();
        let (child_count, end) = match self.0.green.child_count() {
            Some(n) => (n, range.end()),
            None => (0, range.start()),
        };
        proof {
            self.lemma_model();
            self.green_of().lemma_wf();
            lemma_prefix_width(self.green_of().kids(), 0, child_count as int);
        }
        LazyChildren {
            parent: self.clone(),
            front_index: 0,
            front_offset: range.start(),
            back_index: child_count,
            back_offset: end,
        }
    }

    /// Returns the walk over this node's red children; tokens give an empty
    /// walk instead of `None`.
    pub fn children(&self) -> (r: Children<L>)
        requires
            self.wf(),
        ensures
            r.wf(),
            r.parent_spec() == *self,
            r.front() == 0,
            r.back() == self.green_of().kids().len(),
            r.remaining() == Seq::new(self.green_of().kids().len(), |i: int| i),
    {
        let r = Children(self.lazy_children());
        assert(r.remaining() =~= Seq::new(self.green_of().kids().len(), |i: int| i));
        r
    }

    /// Returns the first child.
    pub fn first_child(&self) -> (r: Option<Self>)
        requires
            self.wf(),
        ensures
            r is Some <==> self.green_of().kids().len() > 0,
            r matches Some(c) ==> c.is_child_of(*self, 0),
    {
        self.child(0)
    }

    /// Returns the last child.
    pub fn last_child(&self) -> (r: Option<Self>)
        requires
            self.wf(),
        ensures
            r is Some <==> self.green_of().kids().len() > 0,
            r matches Some(c) ==> c.is_child_of(*self, self.green_of().kids().len() - 1),
    {
        let n = match self.0.green.child_count() {
            Some(n) => n,
            None => 0,
        };
        if n == 0 {
            None
        } else {
            self.child(n - 1)
        }
    }

    /// Returns this node's parent.
    pub fn parent(&self) -> (r: Option<Self>)
        ensures
            r == self.parent_of(),
    {
        match &self.0.parent {
            Some(p) => Some(p.node.clone()),
            None => None,
        }
    }

    /// Returns this node's index in its parent.
    pub fn index(&self) -> (r: Option<usize>)
        ensures
            r is Some <==> self.index_of() is Some,
            r matches Some(i) ==> self.index_of() == Some(i as int),
    {
        match &self.0.parent {
            Some(p) => Some(p.index),
            None => None,
        }
    }

    /// Returns whether this node is the root red node.
    pub fn is_root(&self) -> (r: bool)
        ensures
            r == self.parent_of() is None,
    {
        self.0.parent.is_none()
    }

    /// Returns the previous sibling.
    pub fn prev_sibling(&self) -> (r: Option<Self>)
        requires
            self.wf(),
        ensures
            r is Some <==> (self.parent_of() is Some && self.index_of()->0 > 0),
            r matches Some(s) ==> s.is_child_of(self.parent_of()->0, self.index_of()->0 - 1),
    {
        proof {
            self.lemma_model();
        }
        let parent = self.parent()?;
        let index = self.index()?;
        if index == 0 {
            None
        } else {
            parent.child(index - 1)
        }
    }

    /// Returns the next sibling.
    pub fn next_sibling(&self) -> (r: Option<Self>)
        requires
            self.wf(),
        ensures
            r is Some <==> (self.parent_of() is Some && self.index_of()->0 + 1
                < self.parent_of()->0.green_of().kids().len()),
            r matches Some(s) ==> s.is_child_of(self.parent_of()->0, self.index_of()->0 + 1),
    {
        proof {
            self.lemma_model();
        }
        let parent = self.parent()?;
        let index = self.index()?;
        let n = match parent.child_count() {
            Some(n) => n,
            None => 0,
        };
        if index >= n {
            return None;
        }
        parent.child(index + 1)
    }

    /// Returns this node's siblings, itself included, as the walk over its
    /// parent's children; `None` for the root.
    pub fn siblings(&self) -> (r: Option<Children<L>>)
        requires
            self.wf(),
        ensures
            r is Some <==> self.parent_of() is Some,
            r matches Some(c) ==> {
                &&& c.wf()
                &&& c.parent_spec() == self.parent_of()->0
                &&& c.front() == 0
                &&& c.back() == self.parent_of()->0.green_of().kids().len()
            },
    {
        proof {
            self.lemma_model();
        }
        Some(self.parent()?.children())
    }
}

/// Result of an offset query.
///
/// A text offset can point inside a single element, or sit exactly between
/// two adjacent elements. `Between(left, right)` keeps both choices so that
/// callers can choose a bias explicitly.
pub enum AtOffset<T> {
    /// The offset resolves to one element.
    Single(T),
    /// The offset is on a boundary between the left and right elements.
    Between(T, T),
}

/// The values an `AtOffset` holds, left first.
pub open spec fn at_offset_items<T>(a: AtOffset<T>) -> Seq<T> {
    match a {
        AtOffset::Single(x) => seq![x],
        AtOffset::Between(x, y) => seq![x, y],
    }
}

impl<T> AtOffset<T> {
    /// Borrows the contained value or values.
    pub fn as_ref(&self) -> (r: AtOffset<&T>)
        ensures
            match (*self, r) {
                (AtOffset::Single(a), AtOffset::Single(b)) => *b == a,
                (AtOffset::Between(a, b), AtOffset::Between(c, d)) => *c == a && *d == b,
                _ => false,
            },
    {
        match self {
            AtOffset::Single(node) => AtOffset::Single(node),
            AtOffset::Between(left, right) => AtOffset::Between(left, right),
        }
    }

    /// Returns whether this value is `AtOffset::Between`.
    pub fn is_between(&self) -> (r: bool)
        ensures
            r == self is Between,
    {
        match self {
            AtOffset::Single(_) => false,
            AtOffset::Between(_, _) => true,
        }
    }

    /// Maps the contained value or values, left first.
    pub fn map<U, F: Fn(T) -> U>(self, f: F) -> (r: AtOffset<U>)
        requires
            forall|i: int| 0 <= i < at_offset_items(self).len() ==> call_requires(f, (#[trigger] at_offset_items(self)[i],)),
        ensures
            self is Single <==> r is Single,
            at_offset_items(r).len() == at_offset_items(self).len(),
            forall|i: int|
                0 <= i < at_offset_items(self).len() ==> call_ensures(
                    f,
                    (#[trigger] at_offset_items(self)[i],),
                    at_offset_items(r)[i],
                ),
    {
        match self {
            AtOffset::Single(node) => {
                assert(at_offset_items(self)[0] == node);
                AtOffset::Single(f(node))
            },
            AtOffset::Between(left, right) => {
                assert(at_offset_items(self)[0] == left);
                assert(at_offset_items(self)[1] == right);
                let l = f(left);
                let r = f(right);
                AtOffset::Between(l, r)
            },
        }
    }

    /// Returns the single value, or the left value for a boundary.
    pub fn left_biased(self) -> (r: T)
        ensures
            r == at_offset_items(self)[0],
    {
        match self {
            AtOffset::Single(node) => node,
            AtOffset::Between(node, _) => node,
        }
    }

    /// Returns the single value, or the right value for a boundary.
    pub fn right_biased(self) -> (r: T)
        ensures
            r == at_offset_items(self).last(),
    {
        match self {
            AtOffset::Single(node) => node,
            AtOffset::Between(_, node) => node,
        }
    }

    /// Returns a walk over the contained value or values, left first.
    pub fn into_iter(self) -> (r: AtOffsetIter<T>)
        ensures
            r.remaining() == at_offset_items(self),
    {
        match self {
            AtOffset::Single(node) => {
                let r = AtOffsetIter { first: Some(node), second: None };
                assert(r.remaining() =~= at_offset_items(self));
                r
            },
            AtOffset::Between(left, right) => {
                let r = AtOffsetIter { first: Some(left), second: Some(right) };
                assert(r.remaining() =~= at_offset_items(self));
                r
            },
        }
    }
}

/// Walk over the values of an `AtOffset`, left first.
pub struct AtOffsetIter<T> {
    first: Option<T>,
    second: Option<T>,
}

/// The value an option holds, as a sequence of length zero or one.
pub open spec fn option_items<T>(o: Option<T>) -> Seq<T> {
    match o {
        Some(x) => seq![x],
        None => Seq::empty(),
    }
}

impl<T> AtOffsetIter<T> {
    /// The values not yet returned, in order.
    pub closed spec fn remaining(self) -> Seq<T> {
        option_items(self.first) + option_items(self.second)
    }

    /// Returns the next value, or `None` when all were returned.
    pub fn next(&mut self) -> (r: Option<T>)
        ensures
            old(self).remaining().len() == 0 ==> r is None && final(self).remaining().len() == 0,
            old(self).remaining().len() > 0 ==> r == Some(old(self).remaining()[0]) && final(self).remaining()
                == old(self).remaining().drop_first(),
    {
        let r = match self.first.take() {
            Some(x) => Some(x),
            None => self.second.take(),
        };
        assert(self.remaining() =~= if old(self).remaining().len() > 0 {
            old(self).remaining().drop_first()
        } else {
            old(self).remaining()
        });
        r
    }
}

/// Preorder walk event.
pub enum WalkEvent<T> {
    /// Emitted before visiting children.
    Enter(T),
    /// Emitted after visiting children.
    Leave(T),
}

/// Child `i` of `kids` strictly contains offset `o`, measured from the
/// parent's start.
pub open spec fn child_contains<L: Language>(kids: Seq<Green<L>>, i: int, o: int) -> bool {
    &&& 0 <= i < kids.len()
    &&& prefix_width(kids, i) < o < prefix_width(kids, i) + kids[i].width_of()
}

/// Child `i` of `kids` is the first child that starts at offset `o`.
pub open spec fn child_first_at<L: Language>(kids: Seq<Green<L>>, i: int, o: int) -> bool {
    &&& 0 <= i < kids.len()
    &&& prefix_width(kids, i) == o
    &&& (i == 0 || prefix_width(kids, i - 1) < o)
}

/// Child `i` of `kids` is non-empty and ends at offset `o`.
pub open spec fn child_ends_at<L: Language>(kids: Seq<Green<L>>, i: int, o: int) -> bool {
    &&& 0 <= i < kids.len()
    &&& prefix_width(kids, i) < o
    &&& prefix_width(kids, i) + kids[i].width_of() == o
}

/// The direct children at offset `o`, measured from the parent's start: the
/// child that strictly contains `o`; otherwise the non-empty child that ends
/// at `o` and the first child that starts at `o`, as a boundary when there
/// are both; `None` when there is neither.
pub open spec fn child_at<L: Language>(kids: Seq<Green<L>>, o: int) -> Option<AtOffset<int>> {
    if exists|i: int| child_contains(kids, i, o) {
        Some(AtOffset::Single(choose|i: int| child_contains(kids, i, o)))
    } else {
        let has_right = exists|i: int| child_first_at(kids, i, o);
        let has_left = exists|i: int| child_ends_at(kids, i, o);
        let right = choose|i: int| child_first_at(kids, i, o);
        let left = choose|i: int| child_ends_at(kids, i, o);
        if has_right && has_left {
            Some(AtOffset::Between(left, right))
        } else if has_right {
            Some(AtOffset::Single(right))
        } else if has_left {
            Some(AtOffset::Single(left))
        } else {
            None
        }
    }
}

/// At most one child strictly contains an offset, at most one non-empty
/// child ends at it, and at most one child is the first to start at it.
pub proof fn lemma_child_at_unique<L: Language>(kids: Seq<Green<L>>, i: int, j: int, o: int)
    requires
        0 <= i < j < kids.len(),
    ensures
        !(child_contains(kids, i, o) && child_contains(kids, j, o)),
        !(child_ends_at(kids, i, o) && child_ends_at(kids, j, o)),
        !(child_first_at(kids, i, o) && child_first_at(kids, j, o)),
        child_contains(kids, i, o) ==> prefix_width(kids, j) > o,
        child_ends_at(kids, i, o) ==> prefix_width(kids, j) >= o,
{
    lemma_prefix_width(kids, i, i);
    lemma_prefix_width(kids, i + 1, j);
    lemma_prefix_width(kids, i, j - 1);
}

/// `a` holds the red children of `parent` at the indexes `idx`.
pub open spec fn placed_children<L: Language>(a: AtOffset<Red<L>>, parent: Red<L>, idx: AtOffset<int>) -> bool {
    match (a, idx) {
        (AtOffset::Single(x), AtOffset::Single(i)) => x.is_child_of(parent, i),
        (AtOffset::Between(x, y), AtOffset::Between(i, j)) => x.is_child_of(parent, i) && y.is_child_of(
            parent,
            j,
        ),
        _ => false,
    }
}

impl<L: Language> Red<L> {
    /// Finds the direct child at an absolute offset.
    ///
    /// If the offset is exactly between two children, returns
    /// `AtOffset::Between`. The offset must be inside this node's inclusive
    /// range, else the result is `None`.
    pub fn child_at_offset(&self, offset: TextSize) -> (r: Option<AtOffset<Self>>)
        requires
            self.wf(),
        ensures
            !(self.offset_of() <= offset@ <= self.end_of()) ==> r is None,
            self.offset_of() <= offset@ <= self.end_of() ==> match child_at(
                self.green_of().kids(),
                offset@ - self.offset_of(),
            ) {
                None => r is None,
                Some(idx) => r matches Some(a) && placed_children(a, *self, idx),
            },
    {
        if !self.range().contains_inclusive(offset) {
            return None;
        }
        let ghost kids = self.green_of().kids();
        let ghost o = offset@ - self.offset_of();
        let mut left: Option<Self> = None;
        let ghost mut left_index: int = 0;
        let mut children = self.lazy_children();
        loop
            invariant
                children.wf(),
                children.parent_spec() == *self,
                children.back() == kids.len(),
                kids == self.green_of().kids(),
                o == offset@ - self.offset_of(),
                self.wf(),
                self.offset_of() <= offset@ <= self.end_of(),
                forall|j: int|
                    0 <= j < children.front() ==> !child_contains(kids, j, o) && prefix_width(kids, j) != o,
                left is Some <==> exists|j: int| 0 <= j < children.front() && child_ends_at(kids, j, o),
                left matches Some(l) ==> l.is_child_of(*self, left_index) && child_ends_at(kids, left_index, o),
            ensures
                forall|j: int| 0 <= j < kids.len() ==> !child_contains(kids, j, o) && prefix_width(kids, j) != o,
                left is Some <==> exists|j: int| 0 <= j < kids.len() && child_ends_at(kids, j, o),
                left matches Some(l) ==> l.is_child_of(*self, left_index) && child_ends_at(kids, left_index, o),
            decreases children.back() - children.front(),
        {
            let ghost k = children.front();
            proof {
                children.lemma_bounds();
            }
            let child = match children.next() {
                Some(c) => c,
                None => {
                    break;
                },
            };
            let range = child.range();
            proof {
                lemma_prefix_width(kids, k, k);
                if k > 0 {
                    lemma_prefix_width(kids, k - 1, k);
                }
            }
            if range.start().to_u32() == offset.to_u32() {
                let right = child.into_red();
                proof {
                    assert(child_first_at(kids, k, o));
                    assert forall|j: int| !child_contains(kids, j, o) by {
                        if k < j < kids.len() {
                            lemma_prefix_width(kids, k, j);
                        }
                    }
                    assert forall|j: int| child_first_at(kids, j, o) implies j == k by {
                        if j < k {
                            lemma_child_at_unique(kids, j, k, o);
                        } else if j > k {
                            lemma_child_at_unique(kids, k, j, o);
                        }
                    }
                    assert forall|j: int| child_ends_at(kids, j, o) implies j < k by {
                        if j >= k {
                            lemma_prefix_width(kids, k, j);
                        }
                    }
                    if left is Some {
                        assert forall|j: int| child_ends_at(kids, j, o) implies j == left_index by {
                            if j < left_index {
                                lemma_child_at_unique(kids, j, left_index, o);
                            } else if j > left_index {
                                lemma_child_at_unique(kids, left_index, j, o);
                            }
                        }
                    }
                }
                return Some(
                    match left {
                        Some(left) => AtOffset::Between(left, right),
                        None => AtOffset::Single(right),
                    },
                );
            }
            if range.contains(offset) {
                proof {
                    assert(child_contains(kids, k, o));
                    assert forall|j: int| child_contains(kids, j, o) implies j == k by {
                        if j < k {
                            lemma_child_at_unique(kids, j, k, o);
                        } else if j > k {
                            lemma_child_at_unique(kids, k, j, o);
                        }
                    }
                }
                return Some(AtOffset::Single(child.into_red()));
            }
            if range.end().to_u32() == offset.to_u32() {
                proof {
                    left_index = k;
                    assert(child_ends_at(kids, k, o));
                }
                left = Some(child.into_red());
            } else {
                assert(!child_ends_at(kids, k, o));
            }
        }
        proof {
            assert forall|j: int| !child_first_at(kids, j, o) by {}
            assert forall|j: int| !child_contains(kids, j, o) by {}
            if left is Some {
                assert forall|j: int| child_ends_at(kids, j, o) implies j == left_index by {
                    if j < left_index {
                        lemma_child_at_unique(kids, j, left_index, o);
                    } else if j > left_index {
                        lemma_child_at_unique(kids, left_index, j, o);
                    }
                }
            }
        }
        match left {
            Some(left) => Some(AtOffset::Single(left)),
            None => None,
        }
    }
}

impl<L: Language> Red<L> {
    /// The first token of this subtree, `None` when the subtree holds no
    /// token.
    fn first_token_in(&self) -> (r: Option<Self>)
        requires
            self.wf(),
        ensures
            r is Some <==> tokens_of(self.green_of()).len() > 0,
            r matches Some(t) ==> t.at(self.root_of(), self.path_of() + tokens_of(self.green_of())[0]),
        decreases self.green_of(),
    {
        if self.is_token() {
            assert(self.path_of() + Seq::<int>::empty() =~= self.path_of());
            return Some(self.clone());
        }
        let ghost g = self.green_of();
        let mut children = self.lazy_children();
        loop
            invariant
                self.wf(),
                g == self.green_of(),
                !g.is_token_of(),
                children.wf(),
                children.parent_spec() == *self,
                children.back() == g.kids().len(),
                0 <= children.front() <= g.kids().len(),
                tokens_before(g, children.front() as nat) == Seq::<Seq<int>>::empty(),
            decreases children.back() - children.front(),
        {
            let ghost j = children.front();
            let child = match children.next() {
                Some(c) => c.into_red(),
                None => {
                    proof {
                        lemma_tokens_split(g, g.kids().len());
                    }
                    return None;
                },
            };
            proof {
                g.lemma_kid_decreases(j);
            }
            if let Some(t) = child.first_token_in() {
                proof {
                    let ts = tokens_of(g.kids()[j]);
                    lemma_tokens_split(g, j as nat);
                    assert(tokens_of(g) =~= tokens_of_kids(g, j as nat));
                    assert(tokens_of_kids(g, j as nat)[0] == prepend_all(j, ts)[0]);
                    assert(self.path_of() + tokens_of(g)[0] =~= child.path_of() + ts[0]);
                }
                return Some(t);
            }
            proof {
                assert(tokens_before(g, (j + 1) as nat) =~= Seq::<Seq<int>>::empty());
            }
        }
    }

    /// The last token of this subtree, `None` when the subtree holds no
    /// token.
    fn last_token_in(&self) -> (r: Option<Self>)
        requires
            self.wf(),
        ensures
            r is Some <==> tokens_of(self.green_of()).len() > 0,
            r matches Some(t) ==> t.at(self.root_of(), self.path_of() + tokens_of(self.green_of()).last()),
        decreases self.green_of(),
    {
        if self.is_token() {
            assert(self.path_of() + Seq::<int>::empty() =~= self.path_of());
            return Some(self.clone());
        }
        let ghost g = self.green_of();
        let mut children = self.lazy_children();
        loop
            invariant
                self.wf(),
                g == self.green_of(),
                !g.is_token_of(),
                children.wf(),
                children.parent_spec() == *self,
                children.front() == 0,
                0 <= children.back() <= g.kids().len(),
                tokens_of_kids(g, children.back() as nat) == Seq::<Seq<int>>::empty(),
            decreases children.back() - children.front(),
        {
            let ghost j = children.back() - 1;
            let child = match children.next_back() {
                Some(c) => c.into_red(),
                None => {
                    proof {
                        assert(tokens_of(g) == tokens_of_kids(g, 0));
                    }
                    return None;
                },
            };
            proof {
                g.lemma_kid_decreases(j);
            }
            if let Some(t) = child.last_token_in() {
                proof {
                    let ts = tokens_of(g.kids()[j]);
                    lemma_tokens_split(g, (j + 1) as nat);
                    assert(tokens_of(g) =~= tokens_before(g, (j + 1) as nat));
                    assert(tokens_before(g, (j + 1) as nat) == tokens_before(g, j as nat) + prepend_all(j, ts));
                    assert(tokens_of(g).last() == prepend_all(j, ts).last());
                    assert(self.path_of() + tokens_of(g).last() =~= child.path_of() + ts.last());
                }
                return Some(t);
            }
            proof {
                assert(tokens_of_kids(g, j as nat) =~= Seq::<Seq<int>>::empty());
            }
        }
    }

    /// Follows first children down to an element without children.
    fn first_leaf_node(&self) -> (r: Self)
        requires
            self.wf(),
        ensures
            r.at(self.root_of(), self.path_of() + self.green_of().first_leaf()),
        decreases self.green_of(),
    {
        match self.first_child() {
            Some(child) => {
                proof {
                    self.green_of().lemma_kid_decreases(0);
                }
                let r = child.first_leaf_node();
                proof {
                    assert(self.path_of() + self.green_of().first_leaf() =~= self.path_of().push(0)
                        + child.green_of().first_leaf());
                }
                r
            },
            None => {
                assert(self.path_of() + self.green_of().first_leaf() =~= self.path_of());
                self.clone()
            },
        }
    }

    /// Follows last children down to an element without children.
    fn last_leaf_node(&self) -> (r: Self)
        requires
            self.wf(),
        ensures
            r.at(self.root_of(), self.path_of() + self.green_of().last_leaf()),
        decreases self.green_of(),
    {
        match self.last_child() {
            Some(child) => {
                let ghost n = self.green_of().kids().len() - 1;
                proof {
                    self.green_of().lemma_kid_decreases(n);
                }
                let r = child.last_leaf_node();
                proof {
                    assert(self.path_of() + self.green_of().last_leaf() =~= self.path_of().push(n)
                        + child.green_of().last_leaf());
                }
                r
            },
            None => {
                assert(self.path_of() + self.green_of().last_leaf() =~= self.path_of());
                self.clone()
            },
        }
    }

    /// Returns the first token in this subtree, in source order. If called on
    /// a token, returns `self`.
    ///
    /// A subtree without any token (nodes without children all the way
    /// down) gives the element reached by following first children down.
    pub fn first_token(&self) -> (r: Self)
        requires
            self.wf(),
        ensures
            tokens_of(self.green_of()).len() > 0 ==> r.at(
                self.root_of(),
                self.path_of() + tokens_of(self.green_of())[0],
            ),
            tokens_of(self.green_of()).len() == 0 ==> r.at(
                self.root_of(),
                self.path_of() + self.green_of().first_leaf(),
            ),
            r.at(self.root_of(), self.path_of() + first_token_path(self.green_of())),
    {
        match self.first_token_in() {
            Some(t) => t,
            None => self.first_leaf_node(),
        }
    }

    /// Returns the last token in this subtree, in source order. If called on
    /// a token, returns `self`.
    ///
    /// A subtree without any token (nodes without children all the way
    /// down) gives the element reached by following last children down.
    pub fn last_token(&self) -> (r: Self)
        requires
            self.wf(),
        ensures
            tokens_of(self.green_of()).len() > 0 ==> r.at(
                self.root_of(),
                self.path_of() + tokens_of(self.green_of()).last(),
            ),
            tokens_of(self.green_of()).len() == 0 ==> r.at(
                self.root_of(),
                self.path_of() + self.green_of().last_leaf(),
            ),
            r.at(self.root_of(), self.path_of() + last_token_path(self.green_of())),
    {
        match self.last_token_in() {
            Some(t) => t,
            None => self.last_leaf_node(),
        }
    }
}

/// Each path of `a` with the child index `i` put in front.
pub open spec fn prepend_paths(i: int, a: AtOffset<Seq<int>>) -> AtOffset<Seq<int>> {
    match a {
        AtOffset::Single(p) => AtOffset::Single(seq![i] + p),
        AtOffset::Between(p, q) => AtOffset::Between(seq![i] + p, seq![i] + q),
    }
}

/// What the token lookup finds at offset `o` of `g`, measured from `g`'s
/// start, as paths from `g`: `g` itself when no child is at `o`; what it
/// finds in the child that is; and across a boundary between two children,
/// the last token of the left one and the first token of the right one.
pub open spec fn token_at<L: Language>(g: Green<L>, o: int) -> AtOffset<Seq<int>>
    decreases g,
{
    let kids = g.kids();
    match child_at(kids, o) {
        None => AtOffset::Single(Seq::empty()),
        Some(AtOffset::Single(i)) => {
            proof {
                lemma_child_at_placed(kids, o);
                g.lemma_kid_decreases(i);
            }
            prepend_paths(i, token_at(kids[i], o - prefix_width(kids, i)))
        },
        Some(AtOffset::Between(l, r)) => AtOffset::Between(
            seq![l] + last_token_path(kids[l]),
            seq![r] + first_token_path(kids[r]),
        ),
    }
}

/// `a` holds the red nodes at the paths `rel`, taken from `base`, in the tree
/// rooted at `root`.
pub open spec fn placed_at<L: Language>(
    a: AtOffset<Red<L>>,
    root: Green<L>,
    base: Seq<int>,
    rel: AtOffset<Seq<int>>,
) -> bool {
    match (a, rel) {
        (AtOffset::Single(x), AtOffset::Single(p)) => x.at(root, base + p),
        (AtOffset::Between(x, y), AtOffset::Between(p, q)) => x.at(root, base + p) && y.at(root, base + q),
        _ => false,
    }
}

impl<L: Language> Red<L> {
    /// Finds the token at an absolute offset.
    ///
    /// Boundary offsets give `AtOffset::Between` with the token on each side:
    /// the last token of the child that ends there and the first token of the
    /// child that starts there. The lookup descends through the children at
    /// the offset and stops at a node where no child is at it, which it
    /// returns. The offset must be inside this node's inclusive range, else
    /// the result is `None`.
    #[verifier::spinoff_prover]
    #[verifier::rlimit(40)]
    pub fn token_at_offset(&self, offset: TextSize) -> (r: Option<AtOffset<Self>>)
        requires
            self.wf(),
        ensures
            !(self.offset_of() <= offset@ <= self.end_of()) ==> r is None,
            self.offset_of() <= offset@ <= self.end_of() ==> (r matches Some(a) && placed_at(
                a,
                self.root_of(),
                self.path_of(),
                token_at(self.green_of(), offset@ - self.offset_of()),
            )),
        decreases self.green_of(),
    {
        if !self.range().contains_inclusive(offset) {
            return None;
        }
        let ghost kids = self.green_of().kids();
        let ghost o = offset@ - self.offset_of();
        proof {
            lemma_child_at_placed(kids, o);
        }
        let child = match self.child_at_offset(offset) {
            Some(c) => c,
            None => {
                assert(self.path_of() + Seq::<int>::empty() =~= self.path_of());
                return Some(AtOffset::Single(self.clone()));
            },
        };
        match child {
            AtOffset::Single(child) => {
                let ghost i = child.index_of()->0;
                proof {
                    self.green_of().lemma_kid_decreases(i);
                    lemma_prefix_width(kids, i, i);
                    lemma_prefix_width(kids, i + 1, kids.len() as int);
                    self.lemma_model();
                    self.green_of().lemma_wf();
                }
                let a = child.token_at_offset(offset)?;
                proof {
                    let rel = token_at(kids[i], o - prefix_width(kids, i));
                    match rel {
                        AtOffset::Single(p) => {
                            assert(child.path_of() + p =~= self.path_of() + (seq![i] + p));
                        },
                        AtOffset::Between(p, q) => {
                            assert(child.path_of() + p =~= self.path_of() + (seq![i] + p));
                            assert(child.path_of() + q =~= self.path_of() + (seq![i] + q));
                        },
                    }
                }
                Some(a)
            },
            AtOffset::Between(left, right) => {
                let l = left.last_token();
                let r = right.first_token();
                proof {
                    let li = left.index_of()->0;
                    let ri = right.index_of()->0;
                    assert(left.path_of() + last_token_path(kids[li]) =~= self.path_of() + (seq![li]
                        + last_token_path(kids[li])));
                    assert(right.path_of() + first_token_path(kids[ri]) =~= self.path_of() + (seq![ri]
                        + first_token_path(kids[ri])));
                }
                Some(AtOffset::Between(l, r))
            },
        }
    }
}

/// Child `i` of `kids` covers the range `lo..hi`, measured from the parent's
/// start.
pub open spec fn child_covers<L: Language>(kids: Seq<Green<L>>, i: int, lo: int, hi: int) -> bool {
    &&& 0 <= i < kids.len()
    &&& prefix_width(kids, i) <= lo
    &&& hi <= prefix_width(kids, i) + kids[i].width_of()
}

/// Child `i` of `kids` is non-empty and starts at offset `o`.
pub open spec fn child_starts_at<L: Language>(kids: Seq<Green<L>>, i: int, o: int) -> bool {
    &&& 0 <= i < kids.len()
    &&& prefix_width(kids, i) == o
    &&& kids[i].width_of() > 0
}

/// The path from `g` to the smallest descendant that covers the non-empty
/// range `lo..hi`, measured from `g`'s start: down through the child that
/// covers the range, as long as there is one.
pub open spec fn cover_nonempty<L: Language>(g: Green<L>, lo: int, hi: int) -> Seq<int>
    decreases g,
{
    let kids = g.kids();
    if exists|i: int| child_covers(kids, i, lo, hi) {
        let i = choose|i: int| child_covers(kids, i, lo, hi);
        proof {
            g.lemma_kid_decreases(i);
        }
        seq![i] + cover_nonempty(kids[i], lo - prefix_width(kids, i), hi - prefix_width(kids, i))
    } else {
        Seq::empty()
    }
}

/// The path from `g` to the node that covers the empty range at offset `o`,
/// measured from `g`'s start. Only non-empty children count: down through a
/// child that strictly contains `o`; staying put when `o` sits between two
/// adjacent children; down through the child that starts, or else the one
/// that ends, at `o` when there is only one of them.
pub open spec fn cover_empty<L: Language>(g: Green<L>, o: int) -> Seq<int>
    decreases g,
{
    let kids = g.kids();
    if exists|i: int| child_contains(kids, i, o) {
        let i = choose|i: int| child_contains(kids, i, o);
        proof {
            g.lemma_kid_decreases(i);
        }
        seq![i] + cover_empty(kids[i], o - prefix_width(kids, i))
    } else {
        let has_left = exists|i: int| child_ends_at(kids, i, o);
        let has_right = exists|i: int| child_starts_at(kids, i, o);
        if has_left && has_right {
            Seq::empty()
        } else if has_right {
            let i = choose|i: int| child_starts_at(kids, i, o);
            proof {
                g.lemma_kid_decreases(i);
            }
            seq![i] + cover_empty(kids[i], 0)
        } else if has_left {
            let i = choose|i: int| child_ends_at(kids, i, o);
            proof {
                g.lemma_kid_decreases(i);
            }
            seq![i] + cover_empty(kids[i], kids[i].width_of() as int)
        } else {
            Seq::empty()
        }
    }
}

/// The path from `g` to the smallest node covering `lo..hi`.
pub open spec fn cover<L: Language>(g: Green<L>, lo: int, hi: int) -> Seq<int> {
    if lo == hi {
        cover_empty(g, lo)
    } else {
        cover_nonempty(g, lo, hi)
    }
}

/// At most one child covers a non-empty range, and at most one non-empty
/// child starts at an offset.
pub proof fn lemma_cover_unique<L: Language>(kids: Seq<Green<L>>, i: int, j: int, lo: int, hi: int)
    requires
        0 <= i < j < kids.len(),
    ensures
        lo < hi ==> !(child_covers(kids, i, lo, hi) && child_covers(kids, j, lo, hi)),
        !(child_starts_at(kids, i, lo) && child_starts_at(kids, j, lo)),
        child_starts_at(kids, i, lo) ==> prefix_width(kids, j) > lo,
        prefix_width(kids, i) + kids[i].width_of() <= prefix_width(kids, j),
{
    lemma_prefix_width(kids, i, i);
    lemma_prefix_width(kids, i + 1, j);
}

impl<L: Language> Red<L> {
    /// Returns the smallest node that fully covers `range`, or `None` when
    /// `range` is not within this node.
    ///
    /// An empty range descends only into a non-empty child that contains it
    /// strictly inside, or that it touches on one side only; between two
    /// adjacent children it stays on the parent.
    pub fn covering_node(&self, range: TextRange) -> (r: Option<Self>)
        requires
            self.wf(),
        ensures
            r is Some <==> (self.offset_of() <= range.start_spec() && range.end_spec() <= self.end_of()),
            r matches Some(n) ==> n.at(
                self.root_of(),
                self.path_of() + cover(
                    self.green_of(),
                    range.start_spec() - self.offset_of(),
                    range.end_spec() - self.offset_of(),
                ),
            ),
    {
        if !self.range().contains_range(range) {
            return None;
        }
        let start = range.start();
        // Reading the end brings in the fact that it is not before the start.
        let _end = range.end();
        if range.is_empty() {
            return Some(self.covering_empty_range(start));
        }
        Some(self.covering_nonempty_range(range))
    }

    fn covering_nonempty_range(&self, range: TextRange) -> (r: Self)
        requires
            self.wf(),
            self.offset_of() <= range.start_spec() < range.end_spec() <= self.end_of(),
        ensures
            r.at(
                self.root_of(),
                self.path_of() + cover_nonempty(
                    self.green_of(),
                    range.start_spec() - self.offset_of(),
                    range.end_spec() - self.offset_of(),
                ),
            ),
        decreases self.green_of(),
    {
        let ghost kids = self.green_of().kids();
        let ghost lo = range.start_spec() - self.offset_of();
        let ghost hi = range.end_spec() - self.offset_of();
        let mut children = self.lazy_children();
        loop
            invariant
                children.wf(),
                children.parent_spec() == *self,
                children.back() == kids.len(),
                kids == self.green_of().kids(),
                lo == range.start_spec() - self.offset_of(),
                hi == range.end_spec() - self.offset_of(),
                self.wf(),
                self.offset_of() <= range.start_spec() < range.end_spec() <= self.end_of(),
                forall|j: int| 0 <= j < children.front() ==> !child_covers(kids, j, lo, hi),
            ensures
                forall|j: int| 0 <= j < kids.len() ==> !child_covers(kids, j, lo, hi),
            decreases children.back() - children.front(),
        {
            let ghost k = children.front();
            proof {
                children.lemma_bounds();
            }
            let child = match children.next() {
                Some(c) => c,
                None => {
                    break;
                },
            };
            let r = child.range();
            proof {
                lemma_prefix_width(kids, k, k);
            }
            match r.intersect(range) {
                Some(inter) => {
                    if !inter.is_empty() {
                        if inter.start().to_u32() == range.start().to_u32() && inter.end().to_u32()
                            == range.end().to_u32() {
                            let c = child.into_red();
                            proof {
                                assert(child_covers(kids, k, lo, hi));
                                assert forall|j: int| child_covers(kids, j, lo, hi) implies j == k by {
                                    if j < k {
                                        lemma_cover_unique(kids, j, k, lo, hi);
                                    } else if j > k {
                                        lemma_cover_unique(kids, k, j, lo, hi);
                                    }
                                }
                                self.green_of().lemma_kid_decreases(k);
                            }
                            let n = c.covering_nonempty_range(range);
                            proof {
                                let rel = cover_nonempty(kids[k], lo - prefix_width(kids, k), hi - prefix_width(kids, k));
                                assert(c.path_of() + rel =~= self.path_of() + (seq![k] + rel));
                            }
                            return n;
                        }
                        proof {
                            assert forall|j: int| 0 <= j < kids.len() implies !child_covers(kids, j, lo, hi) by {
                                if j > k {
                                    lemma_cover_unique(kids, k, j, lo, hi);
                                }
                            }
                        }
                        break;
                    }
                },
                None => {},
            }
        }
        assert(self.path_of() + cover_nonempty(self.green_of(), lo, hi) =~= self.path_of());
        self.clone()
    }

    fn covering_empty_range(&self, offset: TextSize) -> (r: Self)
        requires
            self.wf(),
            self.offset_of() <= offset@ <= self.end_of(),
        ensures
            r.at(self.root_of(), self.path_of() + cover_empty(self.green_of(), offset@ - self.offset_of())),
        decreases self.green_of(),
    {
        let ghost kids = self.green_of().kids();
        let ghost o = offset@ - self.offset_of();
        let mut left: Option<LazyChild<L>> = None;
        let ghost mut left_index: int = 0;
        let mut children = self.lazy_children();
        loop
            invariant
                children.wf(),
                children.parent_spec() == *self,
                children.back() == kids.len(),
                kids == self.green_of().kids(),
                o == offset@ - self.offset_of(),
                self.wf(),
                self.offset_of() <= offset@ <= self.end_of(),
                forall|j: int|
                    0 <= j < children.front() ==> !child_contains(kids, j, o) && !child_starts_at(kids, j, o),
                left is Some <==> exists|j: int| 0 <= j < children.front() && child_ends_at(kids, j, o),
                left matches Some(l) ==> l.wf() && l.parent_spec() == *self && l.index_spec() == left_index
                    && child_ends_at(kids, left_index, o),
            ensures
                forall|j: int| 0 <= j < kids.len() ==> !child_contains(kids, j, o) && !child_starts_at(kids, j, o),
                left is Some <==> exists|j: int| 0 <= j < kids.len() && child_ends_at(kids, j, o),
                left matches Some(l) ==> l.wf() && l.parent_spec() == *self && l.index_spec() == left_index
                    && child_ends_at(kids, left_index, o),
            decreases children.back() - children.front(),
        {
            let ghost k = children.front();
            proof {
                children.lemma_bounds();
            }
            let child = match children.next() {
                Some(c) => c,
                None => {
                    break;
                },
            };
            let r = child.range();
            proof {
                lemma_prefix_width(kids, k, k);
            }
            if r.is_empty() {
                assert(!child_ends_at(kids, k, o));
                continue;
            }
            if r.start().to_u32() == offset.to_u32() {
                proof {
                    assert(child_starts_at(kids, k, o));
                    assert forall|j: int| !child_contains(kids, j, o) by {
                        if k < j < kids.len() {
                            lemma_prefix_width(kids, k, j);
                        }
                    }
                    assert forall|j: int| child_starts_at(kids, j, o) implies j == k by {
                        if j < k {
                            lemma_cover_unique(kids, j, k, o, o);
                        } else if j > k {
                            lemma_cover_unique(kids, k, j, o, o);
                        }
                    }
                    assert forall|j: int| child_ends_at(kids, j, o) implies j < k by {
                        if j >= k {
                            lemma_prefix_width(kids, k, j);
                        }
                    }
                }
                if left.is_some() {
                    assert(self.path_of() + cover_empty(self.green_of(), o) =~= self.path_of());
                    return self.clone();
                }
                let c = child.into_red();
                proof {
                    self.green_of().lemma_kid_decreases(k);
                }
                let n = c.covering_empty_range(offset);
                proof {
                    let rel = cover_empty(kids[k], 0);
                    assert(c.path_of() + rel =~= self.path_of() + (seq![k] + rel));
                }
                return n;
            }
            if r.contains(offset) {
                let c = child.into_red();
                proof {
                    assert(child_contains(kids, k, o));
                    assert forall|j: int| child_contains(kids, j, o) implies j == k by {
                        if j < k {
                            lemma_child_at_unique(kids, j, k, o);
                        } else if j > k {
                            lemma_child_at_unique(kids, k, j, o);
                        }
                    }
                    self.green_of().lemma_kid_decreases(k);
                }
                let n = c.covering_empty_range(offset);
                proof {
                    let rel = cover_empty(kids[k], o - prefix_width(kids, k));
                    assert(c.path_of() + rel =~= self.path_of() + (seq![k] + rel));
                }
                return n;
            }
            if r.end().to_u32() == offset.to_u32() {
                proof {
                    left_index = k;
                    assert(child_ends_at(kids, k, o));
                }
                left = Some(child);
            } else {
                assert(!child_ends_at(kids, k, o));
            }
        }
        proof {
            assert forall|j: int| !child_contains(kids, j, o) by {}
            assert forall|j: int| !child_starts_at(kids, j, o) by {}
            if left is Some {
                assert forall|j: int| child_ends_at(kids, j, o) implies j == left_index by {
                    if j < left_index {
                        lemma_child_at_unique(kids, j, left_index, o);
                    } else if j > left_index {
                        lemma_child_at_unique(kids, left_index, j, o);
                    }
                }
            }
        }
        match left {
            Some(child) => {
                let c = child.into_red();
                proof {
                    self.green_of().lemma_kid_decreases(left_index);
                }
                let n = c.covering_empty_range(offset);
                proof {
                    let rel = cover_empty(kids[left_index], kids[left_index].width_of() as int);
                    assert(c.path_of() + rel =~= self.path_of() + (seq![left_index] + rel));
                }
                n
            },
            None => {
                assert(self.path_of() + cover_empty(self.green_of(), o) =~= self.path_of());
                self.clone()
            },
        }
    }
}

/// The path to the token that follows position `path` in source order, in
/// the tree rooted at `root`: the first token among the later siblings of the
/// nearest node on the way up that has one; `None` when there is none.
pub open spec fn next_token_path<L: Language>(root: Green<L>, path: Seq<int>) -> Option<Seq<int>>
    decreases path.len(),
{
    if path.len() == 0 {
        None
    } else {
        let parent = path.drop_last();
        let after = tokens_of_kids(root.subtree(parent), (path.last() + 1) as nat);
        if after.len() > 0 {
            Some(parent + after[0])
        } else {
            next_token_path(root, parent)
        }
    }
}

/// The path to the token that precedes position `path` in source order, in
/// the tree rooted at `root`: the last token among the earlier siblings of
/// the nearest node on the way up that has one; `None` when there is none.
pub open spec fn prev_token_path<L: Language>(root: Green<L>, path: Seq<int>) -> Option<Seq<int>>
    decreases path.len(),
{
    if path.len() == 0 {
        None
    } else {
        let parent = path.drop_last();
        let before = tokens_before(root.subtree(parent), path.last() as nat);
        if before.len() > 0 {
            Some(parent + before.last())
        } else {
            prev_token_path(root, parent)
        }
    }
}

impl<L: Language> Red<L> {
    /// The walk over the siblings that follow this node.
    fn siblings_after(&self) -> (r: LazyChildren<L>)
        requires
            self.wf(),
            self.parent_of() is Some,
        ensures
            r.wf(),
            r.parent_spec() == self.parent_of()->0,
            r.front() == self.index_of()->0 + 1,
            r.back() == self.parent_of()->0.green_of().kids().len(),
    {
        proof {
            self.lemma_model();
        }
        let parent = self.parent().unwrap();
        let index = self.index().unwrap();
        let n = parent.child_count().unwrap();
        let end = self.range().end();
        let parent_end = parent.range().end();
        proof {
            parent.lemma_model();
            let kids = parent.green_of().kids();
            parent.green_of().lemma_wf();
            lemma_prefix_width(kids, index as int, index as int);
            lemma_prefix_width(kids, index as int + 1, n as int);
        }
        LazyChildren { parent, front_index: index + 1, front_offset: end, back_index: n, back_offset: parent_end }
    }

    /// The walk over the siblings that precede this node.
    fn siblings_before(&self) -> (r: LazyChildren<L>)
        requires
            self.wf(),
            self.parent_of() is Some,
        ensures
            r.wf(),
            r.parent_spec() == self.parent_of()->0,
            r.front() == 0,
            r.back() == self.index_of()->0,
    {
        proof {
            self.lemma_model();
        }
        let parent = self.parent().unwrap();
        let index = self.index().unwrap();
        let start = self.range().start();
        let parent_start = parent.range().start();
        proof {
            parent.lemma_model();
            lemma_prefix_width(parent.green_of().kids(), 0, index as int);
        }
        LazyChildren { parent, front_index: 0, front_offset: parent_start, back_index: index, back_offset: start }
    }

    /// Returns the previous token in source order.
    pub fn prev_token(&self) -> (r: Option<Self>)
        requires
            self.wf(),
        ensures
            match prev_token_path(self.root_of(), self.path_of()) {
                None => r is None,
                Some(q) => r matches Some(t) && t.at(self.root_of(), q),
            },
        decreases self.path_of().len(),
    {
        proof {
            self.lemma_model();
        }
        let parent = self.parent()?;
        let ghost g = parent.green_of();
        let ghost i = self.path_of().last();
        let mut siblings = self.siblings_before();
        proof {
            parent.lemma_model();
        }
        loop
            invariant
                parent.wf(),
                g == parent.green_of(),
                0 <= i < g.kids().len(),
                i == self.path_of().last(),
                self.path_of().len() > 0,
                self.path_of().drop_last() == parent.path_of(),
                self.root_of() == parent.root_of(),
                self.root_of().subtree(parent.path_of()) == g,
                siblings.wf(),
                siblings.parent_spec() == parent,
                siblings.front() == 0,
                0 <= siblings.back() <= i,
                tokens_before(g, i as nat) == tokens_before(g, siblings.back() as nat),
            decreases siblings.back() - siblings.front(),
        {
            let ghost j = siblings.back() - 1;
            let sibling = match siblings.next_back() {
                Some(c) => c.into_red(),
                None => {
                    proof {
                        assert(tokens_before(g, 0) =~= Seq::<Seq<int>>::empty());
                        assert(self.path_of().drop_last() == parent.path_of());
                    }
                    return parent.prev_token();
                },
            };
            if let Some(t) = sibling.last_token_in() {
                proof {
                    let ts = tokens_of(g.kids()[j]);
                    assert(tokens_before(g, (j + 1) as nat) == tokens_before(g, j as nat) + prepend_all(j, ts));
                    assert(tokens_before(g, (j + 1) as nat).last() == prepend_all(j, ts).last());
                    assert(tokens_before(g, i as nat).len() > 0);
                    assert(parent.path_of() + tokens_before(g, (j + 1) as nat).last() =~= sibling.path_of()
                        + ts.last());
                }
                return Some(t);
            }
            proof {
                assert(tokens_before(g, (j + 1) as nat) =~= tokens_before(g, j as nat));
            }
        }
    }

    /// Returns the next token in source order.
    pub fn next_token(&self) -> (r: Option<Self>)
        requires
            self.wf(),
        ensures
            match next_token_path(self.root_of(), self.path_of()) {
                None => r is None,
                Some(q) => r matches Some(t) && t.at(self.root_of(), q),
            },
        decreases self.path_of().len(),
    {
        proof {
            self.lemma_model();
        }
        let parent = self.parent()?;
        let ghost g = parent.green_of();
        let ghost i = self.path_of().last();
        let mut siblings = self.siblings_after();
        proof {
            parent.lemma_model();
        }
        loop
            invariant
                parent.wf(),
                g == parent.green_of(),
                0 <= i < g.kids().len(),
                i == self.path_of().last(),
                self.path_of().len() > 0,
                self.path_of().drop_last() == parent.path_of(),
                self.root_of() == parent.root_of(),
                self.root_of().subtree(parent.path_of()) == g,
                siblings.wf(),
                siblings.parent_spec() == parent,
                siblings.back() == g.kids().len(),
                i + 1 <= siblings.front() <= g.kids().len(),
                tokens_of_kids(g, (i + 1) as nat) == tokens_of_kids(g, siblings.front() as nat),
            decreases siblings.back() - siblings.front(),
        {
            let ghost j = siblings.front();
            let sibling = match siblings.next() {
                Some(c) => c.into_red(),
                None => {
                    proof {
                        assert(tokens_of_kids(g, g.kids().len()) =~= Seq::<Seq<int>>::empty());
                        assert(self.path_of().drop_last() == parent.path_of());
                    }
                    return parent.next_token();
                },
            };
            if let Some(t) = sibling.first_token_in() {
                proof {
                    let ts = tokens_of(g.kids()[j]);
                    assert(tokens_of_kids(g, j as nat)[0] == prepend_all(j, ts)[0]);
                    assert(tokens_of_kids(g, (i + 1) as nat).len() > 0);
                    assert(parent.path_of() + tokens_of_kids(g, j as nat)[0] =~= sibling.path_of() + ts[0]);
                }
                return Some(t);
            }
            proof {
                assert(tokens_of_kids(g, j as nat) =~= tokens_of_kids(g, (j + 1) as nat));
            }
        }
    }

    /// Returns the nodes from this one up to the root, both included.
    pub fn ancestors(&self) -> (r: Vec<Self>)
        requires
            self.wf(),
        ensures
            r@.len() == self.path_of().len() + 1,
            forall|k: int|
                0 <= k < r@.len() ==> (#[trigger] r@[k]).at(
                    self.root_of(),
                    self.path_of().take(self.path_of().len() - k),
                ),
    {
        let mut r: Vec<Self> = Vec::new();
        let mut node = self.clone();
        proof {
            assert(self.path_of().take(self.path_of().len() as int) =~= self.path_of());
        }
        loop
            invariant_except_break
                node.wf(),
                node.root_of() == self.root_of(),
                node.path_of() == self.path_of().take(self.path_of().len() - r@.len()),
                r@.len() <= self.path_of().len(),
            invariant
                self.wf(),
                forall|k: int|
                    0 <= k < r@.len() ==> (#[trigger] r@[k]).at(
                        self.root_of(),
                        self.path_of().take(self.path_of().len() - k),
                    ),
            ensures
                r@.len() == self.path_of().len() + 1,
                forall|k: int|
                    0 <= k < r@.len() ==> (#[trigger] r@[k]).at(
                        self.root_of(),
                        self.path_of().take(self.path_of().len() - k),
                    ),
            decreases self.path_of().len() - r@.len(),
        {
            proof {
                node.lemma_model();
            }
            let parent = node.parent();
            r.push(node);
            match parent {
                Some(p) => {
                    proof {
                        assert(p.path_of() =~= self.path_of().take(self.path_of().len() - r@.len()));
                    }
                    node = p;
                },
                None => {
                    break;
                },
            }
        }
        r
    }

    /// Returns this red tree's root node.
    pub fn root(&self) -> (r: Self)
        requires
            self.wf(),
        ensures
            r.at(self.root_of(), Seq::empty()),
    {
        let mut a = self.ancestors();
        let r = a.pop().unwrap();
        proof {
            assert(self.path_of().take(0) =~= Seq::<int>::empty());
        }
        r
    }

    /// Returns this red tree's root green element.
    pub fn root_green(&self) -> (r: Green<L>)
        requires
            self.wf(),
        ensures
            r == self.root_of(),
    {
        let root = self.root();
        proof {
            root.lemma_model();
            assert(root.root_of().subtree(Seq::empty()) == root.root_of());
        }
        root.0.green.clone()
    }
}

/// `new` is `old` with the element at `path` replaced by `rep`, and every node
/// on the way up rebuilt: same kind, the same other children, the width
/// recomputed and the payload composed again by the language.
pub open spec fn rebuilt<L: Language>(old: Green<L>, path: Seq<int>, rep: Green<L>, new: Green<L>) -> bool
    decreases path.len(),
{
    if path.len() == 0 {
        new == rep
    } else {
        let i = path[0];
        &&& built_from(new, old.kind_of(), old.kids().update(i, new.kids()[i]))
        &&& rebuilt(old.kids()[i], path.drop_first(), rep, new.kids()[i])
    }
}

/// Rebuilding above a node that was itself rebuilt from a child replacement.
pub proof fn lemma_rebuilt_push<L: Language>(
    old: Green<L>,
    p: Seq<int>,
    i: int,
    rep: Green<L>,
    mid: Green<L>,
    new: Green<L>,
)
    requires
        old.valid_path(p),
        0 <= i < old.subtree(p).kids().len(),
        built_from(mid, old.subtree(p).kind_of(), old.subtree(p).kids().update(i, rep)),
        rebuilt(old, p, mid, new),
    ensures
        rebuilt(old, p.push(i), rep, new),
    decreases p.len(),
{
    if p.len() == 0 {
        assert(p.push(i) =~= seq![i]);
        assert(seq![i].drop_first() =~= Seq::<int>::empty());
        assert(old.subtree(p) == old);
        assert(new == mid);
        assert(mid.kids()[i] == rep);
        assert(mid.kids() =~= old.kids().update(i, mid.kids()[i]));
        assert(rebuilt(old.kids()[i], Seq::<int>::empty(), rep, new.kids()[i]));
    } else {
        let j = p[0];
        assert(p.push(i).drop_first() =~= p.drop_first().push(i));
        assert(p.push(i)[0] == j);
        lemma_rebuilt_push(old.kids()[j], p.drop_first(), i, rep, mid, new.kids()[j]);
    }
}

/// What rebuilding gives: a well-formed tree that holds `rep` at `path`, with
/// the width changed by the difference of the two widths.
pub proof fn lemma_rebuilt<L: Language>(old: Green<L>, path: Seq<int>, rep: Green<L>, new: Green<L>)
    requires
        old.wf(),
        rep.wf(),
        old.valid_path(path),
        rebuilt(old, path, rep, new),
    ensures
        new.wf(),
        new.valid_path(path),
        new.subtree(path) == rep,
        new.width_of() + old.subtree(path).width_of() == old.width_of() + rep.width_of(),
    decreases path.len(),
{
    if path.len() > 0 {
        let i = path[0];
        old.lemma_wf();
        lemma_rebuilt(old.kids()[i], path.drop_first(), rep, new.kids()[i]);
        lemma_sum_widths_update(old.kids(), i, new.kids()[i]);
    }
}

impl<L: Language> Red<L> {
    /// Replaces this subtree by `replacement` and rebuilds a new green root.
    ///
    /// Calling this on the root returns `replacement`.
    pub fn replace_with(&self, replacement: Green<L>) -> (r: Green<L>)
        requires
            self.wf(),
            replacement.wf(),
            self.root_of().width_of() - self.green_of().width_of() + replacement.width_of() <= u32::MAX,
        ensures
            rebuilt(self.root_of(), self.path_of(), replacement, r),
            r.wf(),
            r.valid_path(self.path_of()),
            r.subtree(self.path_of()) == replacement,
            r.width_of() == self.root_of().width_of() - self.green_of().width_of() + replacement.width_of(),
        decreases self.path_of().len(),
    {
        proof {
            self.lemma_model();
        }
        let (node, index) = match &self.0.parent {
            Some(p) => (&p.node, p.index),
            None => {
                proof {
                    lemma_rebuilt(self.root_of(), self.path_of(), replacement, replacement);
                }
                return replacement;
            },
        };
        let ghost i = index as int;
        let ghost pg = node.green_of();
        proof {
            node.lemma_model();
            pg.lemma_wf();
            lemma_sum_widths_update(pg.kids(), i, replacement);
        }
        let replaced_parent = node.0.green.replace_child(index, replacement).unwrap();
        let r = node.replace_with(replaced_parent);
        proof {
            lemma_rebuilt_push(self.root_of(), node.path_of(), i, replacement, replaced_parent, r);
            assert(node.path_of().push(i) == self.path_of());
            lemma_rebuilt(self.root_of(), self.path_of(), replacement, r);
        }
        r
    }

    /// Splices this node's children and rebuilds a new green root.
    ///
    /// Returns `None` when this node is a token or the range is not a valid
    /// range of its children.
    pub fn splice_children(&self, range: std::ops::Range<usize>, replace_with: Vec<Green<L>>) -> (r: Option<Green<L>>)
        requires
            self.wf(),
            all_wf(replace_with@),
            !self.green_of().is_token_of() && range.start <= range.end <= self.green_of().kids().len()
                ==> self.root_of().width_of() - self.green_of().width_of() + sum_widths(
                splice_seq(self.green_of().kids(), range.start as int, range.end as int, replace_with@),
            ) <= u32::MAX,
        ensures
            r is Some <==> (!self.green_of().is_token_of() && range.start <= range.end
                <= self.green_of().kids().len()),
            r matches Some(g) ==> {
                &&& rebuilt(self.root_of(), self.path_of(), g.subtree(self.path_of()), g)
                &&& built_from(
                    g.subtree(self.path_of()),
                    self.green_of().kind_of(),
                    splice_seq(self.green_of().kids(), range.start as int, range.end as int, replace_with@),
                )
            },
    {
        proof {
            self.lemma_model();
        }
        let spliced = self.0.green.splice_children(range, replace_with)?;
        Some(self.replace_with(spliced))
    }

    /// Replaces one child and rebuilds a new green root.
    ///
    /// Returns `None` for a token or an out-of-bounds index.
    pub fn replace_child(&self, index: usize, new_child: Green<L>) -> (r: Option<Green<L>>)
        requires
            self.wf(),
            new_child.wf(),
            !self.green_of().is_token_of() && index < self.green_of().kids().len()
                ==> self.root_of().width_of() - self.green_of().kids()[index as int].width_of()
                + new_child.width_of() <= u32::MAX,
        ensures
            r is Some <==> (!self.green_of().is_token_of() && index < self.green_of().kids().len()),
            r matches Some(g) ==> {
                &&& rebuilt(self.root_of(), self.path_of(), g.subtree(self.path_of()), g)
                &&& built_from(
                    g.subtree(self.path_of()),
                    self.green_of().kind_of(),
                    self.green_of().kids().update(index as int, new_child),
                )
            },
    {
        proof {
            self.lemma_model();
            self.green_of().lemma_wf();
            if !self.green_of().is_token_of() && index < self.green_of().kids().len() {
                lemma_sum_widths_update(self.green_of().kids(), index as int, new_child);
            }
        }
        let replaced = self.0.green.replace_child(index, new_child)?;
        Some(self.replace_with(replaced))
    }

    /// Inserts one child and rebuilds a new green root.
    ///
    /// Returns `None` for a token or an out-of-bounds index.
    pub fn insert_child(&self, index: usize, new_child: Green<L>) -> (r: Option<Green<L>>)
        requires
            self.wf(),
            new_child.wf(),
            !self.green_of().is_token_of() && index <= self.green_of().kids().len()
                ==> self.root_of().width_of() + new_child.width_of() <= u32::MAX,
        ensures
            r is Some <==> (!self.green_of().is_token_of() && index <= self.green_of().kids().len()),
            r matches Some(g) ==> {
                &&& rebuilt(self.root_of(), self.path_of(), g.subtree(self.path_of()), g)
                &&& built_from(
                    g.subtree(self.path_of()),
                    self.green_of().kind_of(),
                    self.green_of().kids().insert(index as int, new_child),
                )
            },
    {
        proof {
            self.lemma_model();
            self.green_of().lemma_wf();
            let k = self.green_of().kids();
            if !self.green_of().is_token_of() && index <= k.len() {
                lemma_sum_widths_insert(k, index as int, new_child);
            }
        }
        let inserted = self.0.green.insert_child(index, new_child)?;
        Some(self.replace_with(inserted))
    }

    /// Removes one child and rebuilds a new green root.
    ///
    /// Returns `None` for a token or an out-of-bounds index.
    pub fn remove_child(&self, index: usize) -> (r: Option<Green<L>>)
        requires
            self.wf(),
        ensures
            r is Some <==> (!self.green_of().is_token_of() && index < self.green_of().kids().len()),
            r matches Some(g) ==> {
                &&& rebuilt(self.root_of(), self.path_of(), g.subtree(self.path_of()), g)
                &&& built_from(
                    g.subtree(self.path_of()),
                    self.green_of().kind_of(),
                    self.green_of().kids().remove(index as int),
                )
            },
    {
        proof {
            self.lemma_model();
            self.green_of().lemma_wf();
            let k = self.green_of().kids();
            if !self.green_of().is_token_of() && index < k.len() {
                lemma_sum_widths_remove(k, index as int);
            }
        }
        let removed = self.0.green.remove_child(index)?;
        Some(self.replace_with(removed))
    }

    /// Removes this node from its parent and rebuilds a new green root.
    ///
    /// Returns `None` for the root.
    pub fn remove_self(&self) -> (r: Option<Green<L>>)
        requires
            self.wf(),
        ensures
            r is Some <==> self.parent_of() is Some,
            r matches Some(g) ==> {
                let pp = self.path_of().drop_last();
                let parent = self.root_of().subtree(pp);
                &&& rebuilt(self.root_of(), pp, g.subtree(pp), g)
                &&& built_from(g.subtree(pp), parent.kind_of(), parent.kids().remove(self.path_of().last()))
            },
    {
        proof {
            self.lemma_model();
        }
        let (node, index) = match &self.0.parent {
            Some(p) => (&p.node, p.index),
            None => {
                return None;
            },
        };
        proof {
            node.lemma_model();
        }
        node.remove_child(index)
    }
}

/// The preorder walk of `g`, placed at `p`, as events over paths: entering
/// `p`, the walks of the children in order, leaving `p`.
pub open spec fn walk<L: Language>(g: Green<L>, p: Seq<int>) -> Seq<WalkEvent<Seq<int>>>
    decreases g, g.kids().len() + 1,
{
    seq![WalkEvent::Enter(p)] + walk_kids(g, p, 0) + seq![WalkEvent::Leave(p)]
}

/// The walks of the children of `g` from child `i` on, in order.
pub open spec fn walk_kids<L: Language>(g: Green<L>, p: Seq<int>, i: nat) -> Seq<WalkEvent<Seq<int>>>
    decreases g, g.kids().len() - i,
{
    if i < g.kids().len() {
        proof {
            g.lemma_kid_decreases(i as int);
        }
        walk(g.kids()[i as int], p.push(i as int)) + walk_kids(g, p, i + 1)
    } else {
        Seq::empty()
    }
}

/// The events still to come for one stack entry: the whole walk of an entered
/// node, or just the leave event.
pub open spec fn expand<L: Language>(e: WalkEvent<Red<L>>) -> Seq<WalkEvent<Seq<int>>> {
    match e {
        WalkEvent::Enter(n) => walk(n.green_of(), n.path_of()),
        WalkEvent::Leave(n) => seq![WalkEvent::Leave(n.path_of())],
    }
}

/// The events still to come for a stack whose top is its last entry.
pub open spec fn pending<L: Language>(s: Seq<WalkEvent<Red<L>>>) -> Seq<WalkEvent<Seq<int>>>
    decreases s.len(),
{
    if s.len() == 0 {
        Seq::empty()
    } else {
        expand(s.last()) + pending(s.drop_last())
    }
}

/// The red node an event is about.
pub open spec fn event_node<T>(e: WalkEvent<T>) -> T {
    match e {
        WalkEvent::Enter(n) => n,
        WalkEvent::Leave(n) => n,
    }
}

/// `e` is the event `ev` about the red node at `ev`'s path in the tree rooted
/// at `root`.
pub open spec fn event_at<L: Language>(e: WalkEvent<Red<L>>, root: Green<L>, ev: WalkEvent<Seq<int>>) -> bool {
    match (e, ev) {
        (WalkEvent::Enter(n), WalkEvent::Enter(p)) => n.at(root, p),
        (WalkEvent::Leave(n), WalkEvent::Leave(p)) => n.at(root, p),
        _ => false,
    }
}

/// Preorder walk over a red subtree, emitting enter and leave events.
pub struct Preorder<L: Language> {
    stack: Vec<WalkEvent<Red<L>>>,
}

impl<L: Language> Preorder<L> {
    /// The root of the tree walked.
    pub closed spec fn root_spec(self) -> Green<L> {
        event_node(self.stack@[0]).root_of()
    }

    /// The events still to come, in order.
    pub closed spec fn remaining(self) -> Seq<WalkEvent<Seq<int>>> {
        pending(self.stack@)
    }

    /// Every pending node is a consistent red node of the same tree.
    pub closed spec fn wf(self) -> bool {
        forall|i: int|
            0 <= i < self.stack@.len() ==> {
                &&& (#[trigger] event_node(self.stack@[i])).wf()
                &&& event_node(self.stack@[i]).root_of() == self.root_spec()
            }
    }

    /// Returns the next event, or `None` when the walk is over.
    pub fn next(&mut self) -> (r: Option<WalkEvent<Red<L>>>)
        requires
            old(self).wf(),
        ensures
            final(self).wf(),
            old(self).remaining().len() == 0 ==> r is None && final(self).remaining().len() == 0,
            old(self).remaining().len() > 0 ==> {
                &&& r matches Some(e) && event_at(e, old(self).root_spec(), old(self).remaining()[0])
                &&& final(self).remaining() == old(self).remaining().drop_first()
                &&& final(self).remaining().len() > 0 ==> final(self).root_spec() == old(self).root_spec()
            },
    {
        let ghost old_stack = self.stack@;
        let ghost root = self.root_spec();
        let event = match self.stack.pop() {
            Some(e) => e,
            None => {
                return None;
            },
        };
        let ghost rest = self.stack@;
        proof {
            assert(rest =~= old_stack.drop_last());
            assert(event == old_stack.last());
            assert(event_node(old_stack[old_stack.len() - 1]).wf());
        }
        match &event {
            WalkEvent::Enter(node) => {
                let ghost n = *node;
                self.stack.push(WalkEvent::Leave(node.clone()));
                let mut children = node.children();
                proof {
                    assert(self.stack@.drop_last() =~= rest);
                    assert(self.stack@.subrange(0, rest.len() as int) =~= rest);
                    assert(walk_kids(n.green_of(), n.path_of(), n.green_of().kids().len()) =~= Seq::<
                        WalkEvent<Seq<int>>,
                    >::empty());
                    assert(pending(self.stack@) =~= walk_kids(
                        n.green_of(),
                        n.path_of(),
                        n.green_of().kids().len(),
                    ) + seq![WalkEvent::Leave(n.path_of())] + pending(rest));
                    assert forall|i: int| 0 <= i < self.stack@.len() implies {
                        &&& (#[trigger] event_node(self.stack@[i])).wf()
                        &&& event_node(self.stack@[i]).root_of() == root
                    } by {
                        if i < rest.len() {
                            assert(self.stack@[i] == old_stack[i]);
                        }
                    }
                }
                loop
                    invariant
                        children.wf(),
                        children.parent_spec() == n,
                        children.front() == 0,
                        n.wf(),
                        n.root_of() == root,
                        old_stack.len() > 0,
                        root == event_node(old_stack[0]).root_of(),
                        rest == old_stack.drop_last(),
                        forall|i: int|
                            0 <= i < old_stack.len() ==> {
                                &&& (#[trigger] event_node(old_stack[i])).wf()
                                &&& event_node(old_stack[i]).root_of() == root
                            },
                        self.stack@.len() > rest.len(),
                        self.stack@.subrange(0, rest.len() as int) == rest,
                        forall|i: int|
                            0 <= i < self.stack@.len() ==> {
                                &&& (#[trigger] event_node(self.stack@[i])).wf()
                                &&& event_node(self.stack@[i]).root_of() == root
                            },
                        pending(self.stack@) == walk_kids(n.green_of(), n.path_of(), children.back() as nat)
                            + seq![WalkEvent::Leave(n.path_of())] + pending(rest),
                    ensures
                        self.stack@.len() > 0,
                        forall|i: int|
                            0 <= i < self.stack@.len() ==> {
                                &&& (#[trigger] event_node(self.stack@[i])).wf()
                                &&& event_node(self.stack@[i]).root_of() == root
                            },
                        pending(self.stack@) == walk_kids(n.green_of(), n.path_of(), 0)
                            + seq![WalkEvent::Leave(n.path_of())] + pending(rest),
                    decreases children.back(),
                {
                    proof {
                        children.lazy().lemma_bounds();
                    }
                    let ghost j = children.back();
                    let ghost before = self.stack@;
                    match children.next_back() {
                        Some(c) => {
                            self.stack.push(WalkEvent::Enter(c));
                            proof {
                                assert(self.stack@.drop_last() =~= before);
                                assert(self.stack@.subrange(0, rest.len() as int) =~= before.subrange(
                                    0,
                                    rest.len() as int,
                                ));
                                assert forall|i: int| 0 <= i < self.stack@.len() implies {
                                    &&& (#[trigger] event_node(self.stack@[i])).wf()
                                    &&& event_node(self.stack@[i]).root_of() == root
                                } by {
                                    if i < before.len() {
                                        assert(self.stack@[i] == before[i]);
                                    }
                                }
                            }
                        },
                        None => {
                            break;
                        },
                    }
                }
                proof {
                    assert(event_node(self.stack@[0]).root_of() == root);
                    assert(old_stack.len() > 0);
                    assert(pending(old_stack) == expand(event) + pending(rest));
                    assert(walk(n.green_of(), n.path_of()) =~= seq![WalkEvent::Enter(n.path_of())]
                        + (walk_kids(n.green_of(), n.path_of(), 0) + seq![WalkEvent::Leave(n.path_of())]));
                    assert(self.remaining() =~= old(self).remaining().drop_first());
                }
            },
            WalkEvent::Leave(node) => {
                proof {
                    assert(pending(old_stack) == expand(event) + pending(rest));
                    assert(self.remaining() =~= old(self).remaining().drop_first());
                    assert forall|i: int| 0 <= i < self.stack@.len() implies {
                        &&& (#[trigger] event_node(self.stack@[i])).wf()
                        &&& event_node(self.stack@[i]).root_of() == self.root_spec()
                    } by {
                        assert(self.stack@[i] == old_stack[i]);
                        assert(self.stack@[0] == old_stack[0]);
                    }
                }
            },
        }
        Some(event)
    }
}

/// The paths of the enter events of `s`, in order.
pub open spec fn enter_paths(s: Seq<WalkEvent<Seq<int>>>) -> Seq<Seq<int>>
    decreases s.len(),
{
    if s.len() == 0 {
        Seq::empty()
    } else {
        match s[0] {
            WalkEvent::Enter(p) => seq![p] + enter_paths(s.drop_first()),
            WalkEvent::Leave(_) => enter_paths(s.drop_first()),
        }
    }
}

/// The paths of `ps` that lead to tokens of the tree rooted at `root`, in order.
pub open spec fn token_paths<L: Language>(root: Green<L>, ps: Seq<Seq<int>>) -> Seq<Seq<int>>
    decreases ps.len(),
{
    if ps.len() == 0 {
        Seq::empty()
    } else if root.subtree(ps[0]).is_token_of() {
        seq![ps[0]] + token_paths(root, ps.drop_first())
    } else {
        token_paths(root, ps.drop_first())
    }
}

/// Red descendants in preorder, the starting node included.
pub struct Descendants<L: Language> {
    preorder: Preorder<L>,
}

impl<L: Language> Descendants<L> {
    /// The root of the tree walked.
    pub closed spec fn root_spec(self) -> Green<L> {
        self.preorder.root_spec()
    }

    /// The paths of the descendants still to come, in order.
    pub closed spec fn remaining(self) -> Seq<Seq<int>> {
        enter_paths(self.preorder.remaining())
    }

    pub closed spec fn wf(self) -> bool {
        self.preorder.wf()
    }

    /// Returns the next descendant, or `None` when there is none left.
    pub fn next(&mut self) -> (r: Option<Red<L>>)
        requires
            old(self).wf(),
        ensures
            final(self).wf(),
            old(self).remaining().len() == 0 ==> r is None && final(self).remaining().len() == 0,
            old(self).remaining().len() > 0 ==> {
                &&& r matches Some(n) && n.at(old(self).root_spec(), old(self).remaining()[0])
                &&& final(self).remaining() == old(self).remaining().drop_first()
                &&& final(self).remaining().len() > 0 ==> final(self).root_spec() == old(self).root_spec()
            },
    {
        let ghost target = self.remaining();
        let ghost root = self.root_spec();
        loop
            invariant
                self.wf(),
                enter_paths(self.preorder.remaining()) == target,
                self.preorder.remaining().len() > 0 ==> self.preorder.root_spec() == root,
                target == old(self).remaining(),
                root == old(self).root_spec(),
            decreases self.preorder.remaining().len(),
        {
            let ghost before = self.preorder.remaining();
            match self.preorder.next() {
                Some(WalkEvent::Enter(node)) => {
                    proof {
                        assert(before.len() > 0);
                    }
                    return Some(node);
                },
                Some(WalkEvent::Leave(_)) => {},
                None => {
                    proof {
                        assert(before.len() == 0);
                    }
                    return None;
                },
            }
        }
    }
}

impl<L: Language> Red<L> {
    /// Walks this subtree in preorder, emitting enter and leave events.
    pub fn preorder(&self) -> (r: Preorder<L>)
        requires
            self.wf(),
        ensures
            r.wf(),
            r.root_spec() == self.root_of(),
            r.remaining() == walk(self.green_of(), self.path_of()),
    {
        let mut stack: Vec<WalkEvent<Red<L>>> = Vec::new();
        stack.push(WalkEvent::Enter(self.clone()));
        let r = Preorder { stack };
        proof {
            assert(r.stack@.drop_last() =~= Seq::<WalkEvent<Red<L>>>::empty());
            assert(r.stack@.last() == WalkEvent::Enter(*self));
            assert(pending(Seq::<WalkEvent<Red<L>>>::empty()) =~= Seq::<WalkEvent<Seq<int>>>::empty());
            assert(r.remaining() =~= walk(self.green_of(), self.path_of()));
        }
        r
    }

    /// Returns the descendants in preorder, `self` included.
    pub fn descendants(&self) -> (r: Descendants<L>)
        requires
            self.wf(),
        ensures
            r.wf(),
            r.root_spec() == self.root_of(),
            r.remaining() == enter_paths(walk(self.green_of(), self.path_of())),
    {
        Descendants { preorder: self.preorder() }
    }

    /// Returns all tokens under this node, in source order: the descendants
    /// that are tokens, in preorder. They tile the node's range: the first
    /// starts where the node starts, each ends where the next one starts,
    /// the last ends where the node ends, and their widths add up to the
    /// node's width.
    pub fn tokens(&self) -> (r: Vec<Self>)
        requires
            self.wf(),
        ensures
            ({
                let ps = token_paths(self.root_of(), enter_paths(walk(self.green_of(), self.path_of())));
                &&& r@.len() == ps.len()
                &&& forall|k: int| 0 <= k < ps.len() ==> (#[trigger] r@[k]).at(self.root_of(), ps[k])
            }),
            r@.len() == tokens_of(self.green_of()).len(),
            forall|k: int|
                0 <= k < r@.len() ==> (#[trigger] r@[k]).at(
                    self.root_of(),
                    self.path_of() + tokens_of(self.green_of())[k],
                ),
            r@.len() > 0 ==> r@[0].offset_of() == self.offset_of() && r@.last().end_of() == self.end_of(),
            forall|k: int| 0 <= k < r@.len() - 1 ==> (#[trigger] r@[k]).end_of() == r@[k + 1].offset_of(),
            sum_widths(r@.map_values(|t: Red<L>| t.green_of())) == self.green_of().width_of(),
    {
        let ghost root = self.root_of();
        let ghost all = token_paths(root, enter_paths(walk(self.green_of(), self.path_of())));
        let mut r: Vec<Self> = Vec::new();
        let mut d = self.descendants();
        loop
            invariant
                d.wf(),
                d.remaining().len() > 0 ==> d.root_spec() == root,
                all == token_paths(root, enter_paths(walk(self.green_of(), self.path_of()))),
                root == self.root_of(),
                r@.len() + token_paths(root, d.remaining()).len() == all.len(),
                forall|k: int| 0 <= k < r@.len() ==> (#[trigger] r@[k]).at(root, all[k]),
                forall|k: int|
                    0 <= k < token_paths(root, d.remaining()).len() ==> all[r@.len() + k]
                        == #[trigger] token_paths(root, d.remaining())[k],
            ensures
                r@.len() == all.len(),
                forall|k: int| 0 <= k < r@.len() ==> (#[trigger] r@[k]).at(root, all[k]),
            decreases d.remaining().len(),
        {
            let ghost before = d.remaining();
            match d.next() {
                Some(n) => {
                    proof {
                        n.lemma_model();
                    }
                    if n.is_token() {
                        let ghost rb = r@;
                        r.push(n);
                        proof {
                            assert(token_paths(root, before) == seq![before[0]] + token_paths(root, d.remaining()));
                            assert(all[r@.len() - 1] == token_paths(root, before)[0]);
                            assert forall|k: int|
                                0 <= k < token_paths(root, d.remaining()).len() implies all[r@.len() + k]
                                == #[trigger] token_paths(root, d.remaining())[k] by {
                                assert(token_paths(root, before)[k + 1] == token_paths(root, d.remaining())[k]);
                            }
                            assert forall|k: int| 0 <= k < r@.len() implies (#[trigger] r@[k]).at(root, all[k]) by {
                                if k < r@.len() - 1 {
                                    assert(r@[k] == rb[k]);
                                }
                            }
                        }
                    } else {
                        proof {
                            assert(token_paths(root, before) == token_paths(root, d.remaining()));
                        }
                    }
                },
                None => {
                    proof {
                        assert(token_paths(root, before) =~= Seq::<Seq<int>>::empty());
                    }
                    break;
                },
            }
        }
        proof {
            self.lemma_tokens_placed(r@);
        }
        r
    }

    /// The red nodes at the token paths of this node's subtree, listed in the
    /// preorder of the descendants, are its tokens in source order, and they
    /// tile its range.
    proof fn lemma_tokens_placed(self, r: Seq<Red<L>>)
        requires
            self.wf(),
            r.len() == token_paths(self.root_of(), enter_paths(walk(self.green_of(), self.path_of()))).len(),
            forall|k: int|
                0 <= k < r.len() ==> (#[trigger] r[k]).at(
                    self.root_of(),
                    token_paths(self.root_of(), enter_paths(walk(self.green_of(), self.path_of())))[k],
                ),
        ensures
            r.len() == tokens_of(self.green_of()).len(),
            forall|k: int|
                0 <= k < r.len() ==> (#[trigger] r[k]).at(self.root_of(), self.path_of() + tokens_of(self.green_of())[k]),
            r.len() > 0 ==> r[0].offset_of() == self.offset_of() && r.last().end_of() == self.end_of(),
            forall|k: int| 0 <= k < r.len() - 1 ==> (#[trigger] r[k]).end_of() == r[k + 1].offset_of(),
            sum_widths(r.map_values(|t: Red<L>| t.green_of())) == self.green_of().width_of(),
    {
        let root = self.root_of();
        let p = self.path_of();
        let g = self.green_of();
        let ts = tokens_of(g);
        let w = g.width_of() as int;
        self.lemma_model();
        lemma_walk_tokens(root, p);
        lemma_tokens_tile(g);
        lemma_end_to_end_offsets(g, ts, 0, w);
        let all = token_paths(root, enter_paths(walk(g, p)));
        assert(all.len() == ts.len());
        assert forall|k: int| 0 <= k < r.len() implies {
            &&& (#[trigger] r[k]).at(root, p + ts[k])
            &&& r[k].offset_of() == self.offset_of() + g.offset_at(ts[k])
            &&& r[k].green_of() == g.subtree(ts[k])
        } by {
            assert(all[k] == p + ts[k]);
            r[k].lemma_model();
            root.lemma_path_concat(p, ts[k]);
        }
        if r.len() > 0 {
            lemma_end_to_end_order(g, ts, 0, w, 0, r.len() - 1);
        }
        assert forall|k: int| 0 <= k < r.len() - 1 implies (#[trigger] r[k]).end_of() == r[k + 1].offset_of() by {
            lemma_end_to_end_order(g, ts, 0, w, k, k + 1);
        }
        assert(r.map_values(|t: Red<L>| t.green_of()) =~= elements_at(g, ts));
    }
}

/// Each path of `qs` with the path `p` put in front.
pub open spec fn shift_paths(p: Seq<int>, qs: Seq<Seq<int>>) -> Seq<Seq<int>> {
    qs.map_values(|q: Seq<int>| p + q)
}

/// The enter paths of two runs of events, one after the other.
pub proof fn lemma_enter_paths_concat(a: Seq<WalkEvent<Seq<int>>>, b: Seq<WalkEvent<Seq<int>>>)
    ensures
        enter_paths(a + b) == enter_paths(a) + enter_paths(b),
    decreases a.len(),
{
    if a.len() == 0 {
        assert(a + b =~= b);
        assert(enter_paths(a) + enter_paths(b) =~= enter_paths(b));
    } else {
        assert((a + b).drop_first() =~= a.drop_first() + b);
        assert((a + b)[0] == a[0]);
        lemma_enter_paths_concat(a.drop_first(), b);
        match a[0] {
            WalkEvent::Enter(p) => {
                assert(seq![p] + (enter_paths(a.drop_first()) + enter_paths(b)) =~= (seq![p] + enter_paths(
                    a.drop_first(),
                )) + enter_paths(b));
            },
            WalkEvent::Leave(_) => {},
        }
    }
}

/// The token paths among two runs of paths, one after the other.
pub proof fn lemma_token_paths_concat<L: Language>(root: Green<L>, a: Seq<Seq<int>>, b: Seq<Seq<int>>)
    ensures
        token_paths(root, a + b) == token_paths(root, a) + token_paths(root, b),
    decreases a.len(),
{
    if a.len() == 0 {
        assert(a + b =~= b);
        assert(token_paths(root, a) + token_paths(root, b) =~= token_paths(root, b));
    } else {
        assert((a + b).drop_first() =~= a.drop_first() + b);
        assert((a + b)[0] == a[0]);
        lemma_token_paths_concat(root, a.drop_first(), b);
        assert(seq![a[0]] + (token_paths(root, a.drop_first()) + token_paths(root, b)) =~= (seq![a[0]]
            + token_paths(root, a.drop_first())) + token_paths(root, b));
    }
}

/// The tokens among the descendants of a node, in preorder, are its tokens
/// in source order.
pub proof fn lemma_walk_tokens<L: Language>(root: Green<L>, p: Seq<int>)
    requires
        root.valid_path(p),
    ensures
        token_paths(root, enter_paths(walk(root.subtree(p), p))) == shift_paths(p, tokens_of(root.subtree(p))),
    decreases root.subtree(p), root.subtree(p).kids().len() + 1,
{
    let g = root.subtree(p);
    let w = walk_kids(g, p, 0);
    let enter = seq![WalkEvent::Enter(p)];
    let leave = seq![WalkEvent::Leave(p)];
    assert(enter.drop_first() =~= Seq::<WalkEvent<Seq<int>>>::empty());
    assert(leave.drop_first() =~= Seq::<WalkEvent<Seq<int>>>::empty());
    assert(enter[0] == WalkEvent::Enter(p));
    assert(leave[0] == WalkEvent::<Seq<int>>::Leave(p));
    assert(enter_paths(Seq::<WalkEvent<Seq<int>>>::empty()) =~= Seq::<Seq<int>>::empty());
    assert(enter_paths(enter) =~= seq![p]);
    assert(enter_paths(leave) =~= Seq::<Seq<int>>::empty());
    lemma_enter_paths_concat(enter + w, leave);
    lemma_enter_paths_concat(enter, w);
    assert(enter_paths(walk(g, p)) =~= seq![p] + enter_paths(w));
    lemma_token_paths_concat(root, seq![p], enter_paths(w));
    lemma_walk_kids_tokens(root, p, 0);
    assert(seq![p].drop_first() =~= Seq::<Seq<int>>::empty());
    assert(seq![p][0] == p);
    assert(token_paths(root, Seq::<Seq<int>>::empty()) =~= Seq::<Seq<int>>::empty());
    if g.is_token_of() {
        assert(tokens_of_kids(g, 0) =~= Seq::<Seq<int>>::empty());
        assert(shift_paths(p, tokens_of(g)) =~= seq![p + Seq::<int>::empty()]);
        assert(p + Seq::<int>::empty() =~= p);
        assert(token_paths(root, seq![p]) =~= seq![p]);
    } else {
        assert(token_paths(root, seq![p]) =~= Seq::<Seq<int>>::empty());
    }
}

/// The tokens among the descendants of the children of a node from child
/// `i` on, in preorder, are their tokens in source order.
pub proof fn lemma_walk_kids_tokens<L: Language>(root: Green<L>, p: Seq<int>, i: nat)
    requires
        root.valid_path(p),
    ensures
        token_paths(root, enter_paths(walk_kids(root.subtree(p), p, i))) == shift_paths(
            p,
            tokens_of_kids(root.subtree(p), i),
        ),
    decreases root.subtree(p), root.subtree(p).kids().len() - i,
{
    let g = root.subtree(p);
    if i < g.kids().len() {
        let kid = g.kids()[i as int];
        g.lemma_kid_decreases(i as int);
        root.lemma_path_push(p, i as int);
        assert(root.subtree(p.push(i as int)) == kid);
        lemma_walk_tokens(root, p.push(i as int));
        lemma_walk_kids_tokens(root, p, i + 1);
        let a = walk(kid, p.push(i as int));
        let b = walk_kids(g, p, i + 1);
        lemma_enter_paths_concat(a, b);
        lemma_token_paths_concat(root, enter_paths(a), enter_paths(b));
        let ts = tokens_of(kid);
        assert forall|k: int| 0 <= k < ts.len() implies #[trigger] shift_paths(p.push(i as int), ts)[k] == shift_paths(
            p,
            prepend_all(i as int, ts),
        )[k] by {
            assert(p.push(i as int) + ts[k] =~= p + (seq![i as int] + ts[k]));
        }
        assert(shift_paths(p.push(i as int), ts) =~= shift_paths(p, prepend_all(i as int, ts)));
        assert(shift_paths(p, prepend_all(i as int, ts) + tokens_of_kids(g, i + 1)) =~= shift_paths(
            p,
            prepend_all(i as int, ts),
        ) + shift_paths(p, tokens_of_kids(g, i + 1)));
    } else {
        assert(walk_kids(g, p, i) =~= Seq::<WalkEvent<Seq<int>>>::empty());
        assert(enter_paths(walk_kids(g, p, i)) =~= Seq::<Seq<int>>::empty());
        assert(shift_paths(p, tokens_of_kids(g, i)) =~= Seq::<Seq<int>>::empty());
    }
}

/// The children of a node tile its range: the first starts where the node
/// starts, each ends where the next one starts, and the last ends where the
/// node ends.
pub proof fn lemma_children_tile<L: Language>(g: Green<L>, i: int)
    requires
        g.wf(),
        !g.is_token_of(),
        0 <= i < g.kids().len(),
    ensures
        prefix_width(g.kids(), 0) == 0,
        prefix_width(g.kids(), i) + g.kids()[i].width_of() == if i + 1 < g.kids().len() {
            prefix_width(g.kids(), i + 1)
        } else {
            g.width_of()
        },
{
    g.lemma_wf();
    lemma_prefix_width(g.kids(), 0, i);
    lemma_prefix_width(g.kids(), i + 1, g.kids().len() as int);
}

/// A red node lies within the range of its parent, and within the range of
/// the root.
pub proof fn lemma_within_parent<L: Language>(r: Red<L>)
    requires
        r.wf(),
    ensures
        r.end_of() <= r.root_of().width_of(),
        r.parent_of() matches Some(p) ==> p.offset_of() <= r.offset_of() && r.end_of() <= p.end_of(),
{
    r.lemma_model();
    if let Some(p) = r.parent_of() {
        p.lemma_model();
        let i = r.path_of().last();
        p.green_of().lemma_wf();
        lemma_prefix_width(p.green_of().kids(), i, i);
        lemma_prefix_width(p.green_of().kids(), i + 1, p.green_of().kids().len() as int);
    }
}

/// When an offset lies within a non-empty run of elements, some element is
/// at it.
pub proof fn lemma_child_at_some<L: Language>(s: Seq<Green<L>>, o: int)
    requires
        s.len() > 0,
        0 <= o <= sum_widths(s),
    ensures
        child_at(s, o) is Some,
{
    lemma_prefix_width(s, 0, 0);
    if o == 0 {
        assert(child_first_at(s, 0, o));
    } else {
        let i = crate::green::lemma_find_child(s, o);
        if o < prefix_width(s, i) + s[i].width_of() {
            assert(child_contains(s, i, o));
        } else {
            assert(child_ends_at(s, i, o));
        }
    }
}

/// What `child_at` gives lies within the run of elements and holds the
/// offset; across a boundary the left one ends at the offset and the right
/// one starts there.
pub proof fn lemma_child_at_placed<L: Language>(s: Seq<Green<L>>, o: int)
    ensures
        match child_at(s, o) {
            Some(AtOffset::Single(i)) => 0 <= i < s.len() && prefix_width(s, i) <= o <= prefix_width(s, i)
                + s[i].width_of(),
            Some(AtOffset::Between(i, j)) => 0 <= i < s.len() && 0 <= j < s.len() && prefix_width(s, i)
                + s[i].width_of() == o && prefix_width(s, j) == o,
            None => true,
        },
{
}

/// The path `q` leads from `g` to an element without children whose range
/// holds offset `o`, measured from `g`'s start.
pub open spec fn ends_at_offset<L: Language>(g: Green<L>, q: Seq<int>, o: int) -> bool {
    &&& g.valid_path(q)
    &&& g.subtree(q).kids().len() == 0
    &&& g.offset_at(q) <= o <= g.offset_at(q) + g.subtree(q).width_of()
}

/// What the token lookup finds are elements without children (tokens, or
/// nodes without children where no token lies) whose ranges hold the
/// offset; across a boundary the left one ends at the offset and the right
/// one starts there.
pub proof fn lemma_token_at<L: Language>(g: Green<L>, o: int)
    requires
        g.wf(),
        0 <= o <= g.width_of(),
    ensures
        match token_at(g, o) {
            AtOffset::Single(q) => ends_at_offset(g, q, o),
            AtOffset::Between(p, q) => {
                &&& ends_at_offset(g, p, o)
                &&& ends_at_offset(g, q, o)
                &&& g.offset_at(p) + g.subtree(p).width_of() == o
                &&& g.offset_at(q) == o
            },
        },
    decreases g,
{
    let k = g.kids();
    g.lemma_wf();
    lemma_child_at_placed(k, o);
    match child_at(k, o) {
        None => {
            if k.len() > 0 {
                lemma_child_at_some(k, o);
            }
            let e = Seq::<int>::empty();
            assert(g.subtree(e) == g);
            assert(g.offset_at(e) == 0);
            assert(g.valid_path(e));
        },
        Some(AtOffset::Single(i)) => {
            g.lemma_kid_decreases(i);
            assert(k[i].wf());
            let o2 = o - prefix_width(k, i);
            lemma_token_at(k[i], o2);
            let inner = token_at(k[i], o2);
            match inner {
                AtOffset::Single(a) => {
                    assert((seq![i] + a).drop_first() =~= a);
                    assert((seq![i] + a)[0] == i);
                },
                AtOffset::Between(a, b) => {
                    assert((seq![i] + a).drop_first() =~= a);
                    assert((seq![i] + a)[0] == i);
                    assert((seq![i] + b).drop_first() =~= b);
                    assert((seq![i] + b)[0] == i);
                },
            }
        },
        Some(AtOffset::Between(l, r)) => {
            g.lemma_kid_decreases(l);
            g.lemma_kid_decreases(r);
            assert(k[l].wf());
            assert(k[r].wf());
            lemma_end_token_paths(k[l]);
            lemma_end_token_paths(k[r]);
            let p = seq![l] + last_token_path(k[l]);
            let q = seq![r] + first_token_path(k[r]);
            assert(p.drop_first() =~= last_token_path(k[l]));
            assert(q.drop_first() =~= first_token_path(k[r]));
            assert(p[0] == l);
            assert(q[0] == r);
        },
    }
}

/// The node that `covering_node` finds for a non-empty range covers the
/// range, and none of its children does: it is the smallest covering node.
pub proof fn lemma_cover_nonempty_smallest<L: Language>(g: Green<L>, lo: int, hi: int)
    requires
        g.wf(),
        0 <= lo < hi <= g.width_of(),
    ensures
        ({
            let p = cover_nonempty(g, lo, hi);
            let n = g.subtree(p);
            &&& g.valid_path(p)
            &&& g.offset_at(p) <= lo
            &&& hi <= g.offset_at(p) + n.width_of()
            &&& forall|i: int| !#[trigger] child_covers(n.kids(), i, lo - g.offset_at(p), hi - g.offset_at(p))
        }),
    decreases g,
{
    let k = g.kids();
    g.lemma_wf();
    if exists|i: int| child_covers(k, i, lo, hi) {
        let i = choose|i: int| child_covers(k, i, lo, hi);
        g.lemma_kid_decreases(i);
        lemma_prefix_width(k, i, i);
        lemma_cover_nonempty_smallest(k[i], lo - prefix_width(k, i), hi - prefix_width(k, i));
        let q = cover_nonempty(k[i], lo - prefix_width(k, i), hi - prefix_width(k, i));
        assert((seq![i] + q).drop_first() =~= q);
        assert((seq![i] + q)[0] == i);
        assert(cover_nonempty(g, lo, hi) == seq![i] + q);
        assert(g.subtree(seq![i] + q) == k[i].subtree(q));
        assert(g.offset_at(seq![i] + q) == prefix_width(k, i) + k[i].offset_at(q));
        let p = seq![i] + q;
        let lo2 = lo - prefix_width(k, i);
        let hi2 = hi - prefix_width(k, i);
        assert forall|j: int| !#[trigger] child_covers(g.subtree(p).kids(), j, lo - g.offset_at(p), hi - g.offset_at(p)) by {
            assert(lo - g.offset_at(p) == lo2 - k[i].offset_at(q));
            assert(hi - g.offset_at(p) == hi2 - k[i].offset_at(q));
            assert(!child_covers(k[i].subtree(q).kids(), j, lo2 - k[i].offset_at(q), hi2 - k[i].offset_at(q)));
        }
    } else {
        assert(cover_nonempty(g, lo, hi) =~= Seq::<int>::empty());
        assert(g.subtree(Seq::<int>::empty()) == g);
        assert(g.offset_at(Seq::<int>::empty()) == 0);
        let p = Seq::<int>::empty();
        assert forall|j: int| !#[trigger] child_covers(g.subtree(p).kids(), j, lo - g.offset_at(p), hi - g.offset_at(p)) by {
            assert(lo - g.offset_at(p) == lo);
            assert(hi - g.offset_at(p) == hi);
            assert(!child_covers(k, j, lo, hi));
        }
    }
}

/// The node that `covering_node` finds for an empty range holds the offset
/// within its range.
pub proof fn lemma_cover_empty_contains<L: Language>(g: Green<L>, o: int)
    requires
        g.wf(),
        0 <= o <= g.width_of(),
    ensures
        g.valid_path(cover_empty(g, o)),
        g.offset_at(cover_empty(g, o)) <= o <= g.offset_at(cover_empty(g, o)) + g.subtree(
            cover_empty(g, o),
        ).width_of(),
    decreases g,
{
    let k = g.kids();
    g.lemma_wf();
    if exists|i: int| child_contains(k, i, o) {
        let i = choose|i: int| child_contains(k, i, o);
        g.lemma_kid_decreases(i);
        lemma_cover_empty_contains(k[i], o - prefix_width(k, i));
        assert((seq![i] + cover_empty(k[i], o - prefix_width(k, i))).drop_first() =~= cover_empty(
            k[i],
            o - prefix_width(k, i),
        ));
    } else {
        let has_left = exists|i: int| child_ends_at(k, i, o);
        let has_right = exists|i: int| child_starts_at(k, i, o);
        if has_left && has_right {
            assert(cover_empty(g, o) =~= Seq::<int>::empty());
        } else if has_right {
            let i = choose|i: int| child_starts_at(k, i, o);
            g.lemma_kid_decreases(i);
            lemma_cover_empty_contains(k[i], 0);
            assert((seq![i] + cover_empty(k[i], 0)).drop_first() =~= cover_empty(k[i], 0));
        } else if has_left {
            let i = choose|i: int| child_ends_at(k, i, o);
            g.lemma_kid_decreases(i);
            lemma_cover_empty_contains(k[i], k[i].width_of() as int);
            assert((seq![i] + cover_empty(k[i], k[i].width_of() as int)).drop_first() =~= cover_empty(
                k[i],
                k[i].width_of() as int,
            ));
        } else {
            assert(cover_empty(g, o) =~= Seq::<int>::empty());
        }
    }
}

/// A path that starts with child `i`, seen from the parent.
pub proof fn lemma_path_cons<L: Language>(g: Green<L>, i: int, q: Seq<int>)
    requires
        0 <= i < g.kids().len(),
    ensures
        g.valid_path(seq![i] + q) <==> g.kids()[i].valid_path(q),
        g.subtree(seq![i] + q) == g.kids()[i].subtree(q),
        g.offset_at(seq![i] + q) == prefix_width(g.kids(), i) + g.kids()[i].offset_at(q),
{
    assert((seq![i] + q).drop_first() =~= q);
    assert((seq![i] + q)[0] == i);
}

/// The node that `covering_node` finds for an empty range at `o` is a
/// smallest one: none of its children strictly contains `o`, and a non-empty
/// child of it ends at `o` exactly when a non-empty child of it starts at
/// `o`; so it either sits between two adjacent non-empty children or no
/// non-empty child touches `o` at all.
pub proof fn lemma_cover_empty_smallest<L: Language>(g: Green<L>, o: int)
    requires
        g.wf(),
        0 <= o <= g.width_of(),
    ensures
        ({
            let p = cover_empty(g, o);
            let n = g.subtree(p);
            let o2 = o - g.offset_at(p);
            &&& forall|i: int| !#[trigger] child_contains(n.kids(), i, o2)
            &&& (exists|i: int| child_ends_at(n.kids(), i, o2)) <==> (exists|i: int|
                child_starts_at(n.kids(), i, o2))
        }),
    decreases g,
{
    let k = g.kids();
    g.lemma_wf();
    if exists|i: int| child_contains(k, i, o) {
        let i = choose|i: int| child_contains(k, i, o);
        g.lemma_kid_decreases(i);
        let o1 = o - prefix_width(k, i);
        lemma_cover_empty_smallest(k[i], o1);
        lemma_path_cons(g, i, cover_empty(k[i], o1));
        assert(cover_empty(g, o) == seq![i] + cover_empty(k[i], o1));
        assert(g.subtree(cover_empty(g, o)) == k[i].subtree(cover_empty(k[i], o1)));
        assert(o - g.offset_at(cover_empty(g, o)) == o1 - k[i].offset_at(cover_empty(k[i], o1)));
    } else {
        let has_left = exists|i: int| child_ends_at(k, i, o);
        let has_right = exists|i: int| child_starts_at(k, i, o);
        if has_left && has_right {
            assert(cover_empty(g, o) =~= Seq::<int>::empty());
            assert(g.subtree(Seq::<int>::empty()) == g);
            assert(g.offset_at(Seq::<int>::empty()) == 0);
        } else if has_right {
            let i = choose|i: int| child_starts_at(k, i, o);
            g.lemma_kid_decreases(i);
            lemma_cover_empty_smallest(k[i], 0);
            lemma_path_cons(g, i, cover_empty(k[i], 0));
            assert(cover_empty(g, o) == seq![i] + cover_empty(k[i], 0));
            assert(g.subtree(cover_empty(g, o)) == k[i].subtree(cover_empty(k[i], 0)));
            assert(o - g.offset_at(cover_empty(g, o)) == 0 - k[i].offset_at(cover_empty(k[i], 0)));
        } else if has_left {
            let i = choose|i: int| child_ends_at(k, i, o);
            g.lemma_kid_decreases(i);
            let w = k[i].width_of() as int;
            lemma_cover_empty_smallest(k[i], w);
            lemma_path_cons(g, i, cover_empty(k[i], w));
            assert(cover_empty(g, o) == seq![i] + cover_empty(k[i], w));
            assert(g.subtree(cover_empty(g, o)) == k[i].subtree(cover_empty(k[i], w)));
            assert(o - g.offset_at(cover_empty(g, o)) == w - k[i].offset_at(cover_empty(k[i], w)));
        } else {
            assert(cover_empty(g, o) =~= Seq::<int>::empty());
            assert(g.subtree(Seq::<int>::empty()) == g);
            assert(g.offset_at(Seq::<int>::empty()) == 0);
        }
    }
}

/// `covering_node` finds a smallest covering node for every range within
/// the node: the node found covers the range; for a non-empty range none of
/// its children covers it; for an empty range none of its children strictly
/// contains the offset, and a non-empty child ends at the offset exactly
/// when a non-empty child starts there.
pub proof fn lemma_cover_smallest<L: Language>(g: Green<L>, lo: int, hi: int)
    requires
        g.wf(),
        0 <= lo <= hi <= g.width_of(),
    ensures
        ({
            let p = cover(g, lo, hi);
            let n = g.subtree(p);
            let a = lo - g.offset_at(p);
            let b = hi - g.offset_at(p);
            &&& g.valid_path(p)
            &&& 0 <= a
            &&& b <= n.width_of()
            &&& lo < hi ==> forall|i: int| !#[trigger] child_covers(n.kids(), i, a, b)
            &&& lo == hi ==> forall|i: int| !#[trigger] child_contains(n.kids(), i, a)
            &&& lo == hi ==> ((exists|i: int| child_ends_at(n.kids(), i, a)) <==> (exists|i: int|
                child_starts_at(n.kids(), i, a)))
        }),
{
    if lo < hi {
        lemma_cover_nonempty_smallest(g, lo, hi);
    } else {
        lemma_cover_empty_contains(g, lo);
        lemma_cover_empty_smallest(g, lo);
    }
}

/// Where the token lookup gives one element, the offset lies strictly
/// inside it or at the start or end of the queried node: an offset inside
/// the node where one element ends and another starts always gives a
/// boundary.
pub proof fn lemma_token_at_single<L: Language>(g: Green<L>, o: int)
    requires
        g.wf(),
        0 <= o <= g.width_of(),
    ensures
        token_at(g, o) matches AtOffset::Single(q) ==> o == 0 || o == g.width_of() || g.offset_at(q) < o
            < g.offset_at(q) + g.subtree(q).width_of(),
    decreases g,
{
    let k = g.kids();
    g.lemma_wf();
    lemma_child_at_placed(k, o);
    match child_at(k, o) {
        None => {
            let e = Seq::<int>::empty();
            assert(g.subtree(e) == g);
            assert(g.offset_at(e) == 0);
            if !g.is_token_of() {
                if k.len() > 0 {
                    lemma_child_at_some(k, o);
                }
                assert(k =~= Seq::<Green<L>>::empty());
                assert(g.width_of() == 0);
            }
        },
        Some(AtOffset::Single(i)) => {
            g.lemma_kid_decreases(i);
            let o1 = o - prefix_width(k, i);
            lemma_token_at_single(k[i], o1);
            match token_at(k[i], o1) {
                AtOffset::Single(a) => {
                    lemma_path_cons(g, i, a);
                    lemma_prefix_width(k, i, i);
                    if exists|j: int| child_contains(k, j, o) {
                        assert(child_contains(k, i, o));
                    } else if exists|j: int| child_ends_at(k, j, o) {
                        assert(child_ends_at(k, i, o));
                        assert(!exists|j: int| child_first_at(k, j, o));
                        if i + 1 < k.len() {
                            lemma_prefix_width(k, i + 1, i + 1);
                            assert(child_first_at(k, i + 1, o));
                        }
                        lemma_prefix_width(k, i, k.len() as int);
                    } else {
                        assert(child_first_at(k, i, o));
                        if i > 0 {
                            lemma_prefix_width(k, i - 1, i - 1);
                            assert(child_ends_at(k, i - 1, o));
                        }
                        lemma_prefix_width(k, 0, 0);
                    }
                },
                AtOffset::Between(_, _) => {},
            }
        },
        Some(AtOffset::Between(_, _)) => {},
    }
}

/// The next and previous tokens in source order are tokens of the same tree.
pub proof fn lemma_token_neighbours<L: Language>(root: Green<L>, path: Seq<int>)
    requires
        root.wf(),
        root.valid_path(path),
    ensures
        next_token_path(root, path) matches Some(q) ==> root.valid_path(q) && root.subtree(q).is_token_of(),
        prev_token_path(root, path) matches Some(q) ==> root.valid_path(q) && root.subtree(q).is_token_of(),
    decreases path.len(),
{
    if path.len() > 0 {
        let parent = path.drop_last();
        let i = path.last();
        assert(parent.push(i) =~= path);
        lemma_valid_prefix(root, parent, i);
        root.lemma_path_push(parent, i);
        root.lemma_path_within(parent);
        let g = root.subtree(parent);
        let after = tokens_of_kids(g, (i + 1) as nat);
        let before = tokens_before(g, i as nat);
        lemma_tokens_kids_tile(g, (i + 1) as nat);
        lemma_tokens_kids_tile(g, 0);
        lemma_tokens_split(g, i as nat);
        if after.len() > 0 {
            root.lemma_path_concat(parent, after[0]);
        }
        if before.len() > 0 {
            let n = before.len() - 1;
            assert(before.last() == tokens_of_kids(g, 0)[n]);
            root.lemma_path_concat(parent, before.last());
        }
        lemma_token_neighbours(root, parent);
    }
}

/// A path's length as a dump depth: depths stop growing at the largest
/// `usize`.
pub open spec fn capped_depth(n: int) -> int {
    if n < usize::MAX {
        n
    } else {
        usize::MAX as int
    }
}

/// The dump lines, in the tree rooted at `root`, for the elements at the
/// paths `qs`: each one's depth, element and start offset.
pub open spec fn dump_lines_at<L: Language>(root: Green<L>, qs: Seq<Seq<int>>) -> Seq<(int, Green<L>, int)> {
    qs.map_values(|q: Seq<int>| (capped_depth(q.len() as int), root.subtree(q), root.offset_at(q) as int))
}

/// Dump lines of two runs of paths, one after the other.
pub proof fn lemma_dump_lines_at_concat<L: Language>(root: Green<L>, a: Seq<Seq<int>>, b: Seq<Seq<int>>)
    ensures
        dump_lines_at(root, a + b) == dump_lines_at(root, a) + dump_lines_at(root, b),
{
    assert(dump_lines_at(root, a + b) =~= dump_lines_at(root, a) + dump_lines_at(root, b));
}

/// The dump of the subtree at `p` lists the elements of its preorder walk.
pub proof fn lemma_dump_walk<L: Language>(root: Green<L>, p: Seq<int>)
    requires
        root.valid_path(p),
    ensures
        dump_spec(root.subtree(p), capped_depth(p.len() as int), root.offset_at(p) as int) == dump_lines_at(
            root,
            enter_paths(walk(root.subtree(p), p)),
        ),
    decreases root.subtree(p), root.subtree(p).kids().len() + 1,
{
    let g = root.subtree(p);
    let w = walk_kids(g, p, 0);
    let enter = seq![WalkEvent::Enter(p)];
    let leave = seq![WalkEvent::Leave(p)];
    assert(enter.drop_first() =~= Seq::<WalkEvent<Seq<int>>>::empty());
    assert(leave.drop_first() =~= Seq::<WalkEvent<Seq<int>>>::empty());
    assert(enter[0] == WalkEvent::Enter(p));
    assert(leave[0] == WalkEvent::<Seq<int>>::Leave(p));
    assert(enter_paths(Seq::<WalkEvent<Seq<int>>>::empty()) =~= Seq::<Seq<int>>::empty());
    assert(enter_paths(enter) =~= seq![p]);
    assert(enter_paths(leave) =~= Seq::<Seq<int>>::empty());
    lemma_enter_paths_concat(enter + w, leave);
    lemma_enter_paths_concat(enter, w);
    assert(enter_paths(walk(g, p)) =~= seq![p] + enter_paths(w));
    lemma_dump_lines_at_concat(root, seq![p], enter_paths(w));
    lemma_dump_walk_kids(root, p, 0);
    assert(dump_lines_at(root, seq![p]) =~= seq![
        (capped_depth(p.len() as int), g, root.offset_at(p) as int),
    ]);
}

/// The dumps of the children of the subtree at `p`, from child `i` on, list
/// the elements of their preorder walks.
pub proof fn lemma_dump_walk_kids<L: Language>(root: Green<L>, p: Seq<int>, i: nat)
    requires
        root.valid_path(p),
    ensures
        dump_kids(root.subtree(p), capped_depth(p.len() as int), root.offset_at(p) as int, i) == dump_lines_at(
            root,
            enter_paths(walk_kids(root.subtree(p), p, i)),
        ),
    decreases root.subtree(p), root.subtree(p).kids().len() - i,
{
    let g = root.subtree(p);
    if i < g.kids().len() {
        let kid = g.kids()[i as int];
        g.lemma_kid_decreases(i as int);
        root.lemma_path_push(p, i as int);
        assert(root.subtree(p.push(i as int)) == kid);
        assert(p.push(i as int).len() == p.len() + 1);
        assert(capped_depth(p.push(i as int).len() as int) == crate::green::deeper(capped_depth(p.len() as int)));
        lemma_dump_walk(root, p.push(i as int));
        lemma_dump_walk_kids(root, p, i + 1);
        let a = walk(kid, p.push(i as int));
        let b = walk_kids(g, p, i + 1);
        lemma_enter_paths_concat(a, b);
        lemma_dump_lines_at_concat(root, enter_paths(a), enter_paths(b));
    } else {
        assert(walk_kids(g, p, i) =~= Seq::<WalkEvent<Seq<int>>>::empty());
        assert(enter_paths(walk_kids(g, p, i)) =~= Seq::<Seq<int>>::empty());
        assert(dump_lines_at(root, Seq::<Seq<int>>::empty()) =~= Seq::<(int, Green<L>, int)>::empty());
    }
}

/// The lines of a tree's dump are its descendants in preorder, the root
/// included, as `descendants` gives them: each with its depth below the
/// root (stopping at the largest `usize`), the element and its start offset.
pub proof fn lemma_dump_lists_descendants<L: Language>(g: Green<L>)
    ensures
        dump_spec(g, 0, 0) == dump_lines_at(g, enter_paths(walk(g, Seq::<int>::empty()))),
{
    let e = Seq::<int>::empty();
    assert(g.valid_path(e));
    assert(g.subtree(e) == g);
    assert(g.offset_at(e) == 0);
    lemma_dump_walk(g, e);
}

/// The tokens of the tree rooted at `root` that come after the subtree at
/// `path` in source order, as paths from `root`.
pub open spec fn tokens_after<L: Language>(root: Green<L>, path: Seq<int>) -> Seq<Seq<int>>
    decreases path.len(),
{
    if path.len() == 0 {
        Seq::empty()
    } else {
        let parent = path.drop_last();
        shift_paths(parent, tokens_of_kids(root.subtree(parent), (path.last() + 1) as nat)) + tokens_after(
            root,
            parent,
        )
    }
}

/// The tokens of the tree rooted at `root` that come before the subtree at
/// `path` in source order, as paths from `root`.
pub open spec fn tokens_preceding<L: Language>(root: Green<L>, path: Seq<int>) -> Seq<Seq<int>>
    decreases path.len(),
{
    if path.len() == 0 {
        Seq::empty()
    } else {
        let parent = path.drop_last();
        tokens_preceding(root, parent) + shift_paths(parent, tokens_before(root.subtree(parent), path.last() as nat))
    }
}

/// The next token after a position is the first of the tokens after its
/// subtree.
pub proof fn lemma_next_token_path<L: Language>(root: Green<L>, path: Seq<int>)
    ensures
        next_token_path(root, path) == if tokens_after(root, path).len() > 0 {
            Some(tokens_after(root, path)[0])
        } else {
            None::<Seq<int>>
        },
    decreases path.len(),
{
    if path.len() > 0 {
        let parent = path.drop_last();
        lemma_next_token_path(root, parent);
        let after = tokens_of_kids(root.subtree(parent), (path.last() + 1) as nat);
        if after.len() == 0 {
            assert(shift_paths(parent, after) + tokens_after(root, parent) =~= tokens_after(root, parent));
        }
    }
}

/// The previous token before a position is the last of the tokens before
/// its subtree.
pub proof fn lemma_prev_token_path<L: Language>(root: Green<L>, path: Seq<int>)
    ensures
        prev_token_path(root, path) == if tokens_preceding(root, path).len() > 0 {
            Some(tokens_preceding(root, path).last())
        } else {
            None::<Seq<int>>
        },
    decreases path.len(),
{
    if path.len() > 0 {
        let parent = path.drop_last();
        lemma_prev_token_path(root, parent);
        let before = tokens_before(root.subtree(parent), path.last() as nat);
        if before.len() == 0 {
            assert(tokens_preceding(root, parent) + shift_paths(parent, before) =~= tokens_preceding(root, parent));
        }
    }
}

/// Paths put behind the same prefix.
pub proof fn lemma_shift_paths(p: Seq<int>, i: int, a: Seq<Seq<int>>, b: Seq<Seq<int>>)
    ensures
        shift_paths(p, a + b) == shift_paths(p, a) + shift_paths(p, b),
        shift_paths(p, prepend_all(i, a)) == shift_paths(p.push(i), a),
{
    assert(shift_paths(p, a + b) =~= shift_paths(p, a) + shift_paths(p, b));
    assert forall|k: int| 0 <= k < a.len() implies #[trigger] shift_paths(p, prepend_all(i, a))[k] == shift_paths(
        p.push(i),
        a,
    )[k] by {
        assert(p + (seq![i] + a[k]) =~= p.push(i) + a[k]);
    }
    assert(shift_paths(p, prepend_all(i, a)) =~= shift_paths(p.push(i), a));
}

/// The tokens of a tree are those before the subtree at a path, those of
/// the subtree, and those after it.
pub proof fn lemma_tokens_around<L: Language>(root: Green<L>, path: Seq<int>)
    requires
        root.valid_path(path),
    ensures
        tokens_of(root) == tokens_preceding(root, path) + shift_paths(path, tokens_of(root.subtree(path)))
            + tokens_after(root, path),
    decreases path.len(),
{
    if path.len() == 0 {
        assert forall|k: int| 0 <= k < tokens_of(root).len() implies #[trigger] shift_paths(path, tokens_of(root))[k]
            == tokens_of(root)[k] by {
            assert(path + tokens_of(root)[k] =~= tokens_of(root)[k]);
        }
        assert(tokens_preceding(root, path) + shift_paths(path, tokens_of(root)) + tokens_after(root, path)
            =~= tokens_of(root));
    } else {
        let parent = path.drop_last();
        let i = path.last();
        assert(parent.push(i) =~= path);
        lemma_valid_prefix(root, parent, i);
        root.lemma_path_push(parent, i);
        lemma_tokens_around(root, parent);
        let g = root.subtree(parent);
        let t = tokens_of(g.kids()[i]);
        lemma_tokens_split(g, i as nat);
        assert(tokens_of(g) == tokens_before(g, i as nat) + (prepend_all(i, t) + tokens_of_kids(g, (i + 1) as nat)));
        lemma_shift_paths(parent, i, tokens_before(g, i as nat), prepend_all(i, t) + tokens_of_kids(g, (i + 1) as nat));
        lemma_shift_paths(parent, i, prepend_all(i, t), tokens_of_kids(g, (i + 1) as nat));
        lemma_shift_paths(parent, i, t, Seq::empty());
        assert(tokens_of(root) =~= tokens_preceding(root, path) + shift_paths(path, tokens_of(root.subtree(path)))
            + tokens_after(root, path));
    }
}

/// No token path occurs twice among the tokens of the children from child
/// `i` on, and each starts with the index of a child from `i` on.
pub proof fn lemma_tokens_kids_distinct<L: Language>(g: Green<L>, i: nat)
    ensures
        forall|a: int|
            0 <= a < tokens_of_kids(g, i).len() ==> (#[trigger] tokens_of_kids(g, i)[a]).len() > 0
                && tokens_of_kids(g, i)[a][0] >= i,
        forall|a: int, b: int|
            #![trigger tokens_of_kids(g, i)[a], tokens_of_kids(g, i)[b]]
            0 <= a < b < tokens_of_kids(g, i).len() ==> tokens_of_kids(g, i)[a] != tokens_of_kids(g, i)[b],
    decreases g, g.kids().len() - i,
{
    if i < g.kids().len() {
        g.lemma_kid_decreases(i as int);
        let t = tokens_of(g.kids()[i as int]);
        lemma_tokens_distinct(g.kids()[i as int]);
        lemma_tokens_kids_distinct(g, i + 1);
        let tk = tokens_of_kids(g, i);
        let rest = tokens_of_kids(g, i + 1);
        let n = t.len();
        assert forall|a: int| 0 <= a < tk.len() implies (#[trigger] tk[a]).len() > 0 && tk[a][0] >= i by {
            if a >= n {
                assert(tk[a] == rest[a - n]);
            }
        }
        assert forall|a: int, b: int| 0 <= a < b < tk.len() implies #[trigger] tk[a] != #[trigger] tk[b] by {
            if b < n {
                if tk[a] == tk[b] {
                    assert(tk[a].drop_first() =~= t[a]);
                    assert(tk[b].drop_first() =~= t[b]);
                }
            } else if a < n {
                assert(tk[b] == rest[b - n]);
                assert(tk[a][0] == i);
            } else {
                assert(tk[a] == rest[a - n]);
                assert(tk[b] == rest[b - n]);
            }
        }
    }
}

/// No token path occurs twice among the tokens of an element.
pub proof fn lemma_tokens_distinct<L: Language>(g: Green<L>)
    ensures
        forall|a: int, b: int|
            #![trigger tokens_of(g)[a], tokens_of(g)[b]]
            0 <= a < b < tokens_of(g).len() ==> tokens_of(g)[a] != tokens_of(g)[b],
    decreases g, g.kids().len() + 1,
{
    if !g.is_token_of() {
        let ts = tokens_of(g);
        let tk = tokens_of_kids(g, 0);
        lemma_tokens_kids_distinct(g, 0);
        assert(ts == tk);
        assert forall|a: int, b: int| 0 <= a < b < ts.len() implies #[trigger] ts[a] != #[trigger] ts[b] by {
            assert(tk[a] != tk[b]);
        }
    }
}

/// Stepping to the next token from a token of the tree gives the token that
/// follows it in source order, and stepping back gives the one before it;
/// there is none past either end.
pub proof fn lemma_token_steps<L: Language>(root: Green<L>, k: int)
    requires
        root.wf(),
        0 <= k < tokens_of(root).len(),
    ensures
        next_token_path(root, tokens_of(root)[k]) == if k + 1 < tokens_of(root).len() {
            Some(tokens_of(root)[k + 1])
        } else {
            None::<Seq<int>>
        },
        prev_token_path(root, tokens_of(root)[k]) == if k > 0 {
            Some(tokens_of(root)[k - 1])
        } else {
            None::<Seq<int>>
        },
{
    let ts = tokens_of(root);
    let p = ts[k];
    lemma_tokens_tile(root);
    lemma_tokens_around(root, p);
    lemma_tokens_distinct(root);
    lemma_next_token_path(root, p);
    lemma_prev_token_path(root, p);
    let b = tokens_preceding(root, p);
    let a = tokens_after(root, p);
    assert(tokens_of(root.subtree(p)) =~= seq![Seq::<int>::empty()]);
    assert(shift_paths(p, tokens_of(root.subtree(p))) =~= seq![p]) by {
        assert(p + Seq::<int>::empty() =~= p);
    }
    let m = b.len() as int;
    assert(ts[m] == p);
    if m < k {
        assert(ts[m] != ts[k]);
    } else if m > k {
        assert(ts[k] != ts[m]);
    }
    assert(k == m);
    if k + 1 < ts.len() {
        assert(a[0] == ts[k + 1]);
    }
    if k > 0 {
        assert(b.last() == ts[k - 1]);
    }
}

/// There is one red node for each child of a red node: the one that
/// `child`, `children` and the sibling walks give.
pub proof fn lemma_child_unique<L: Language>(a: Red<L>, b: Red<L>, parent: Red<L>, i: int)
    requires
        a.is_child_of(parent, i),
        b.is_child_of(parent, i),
    ensures
        a == b,
{
    a.lemma_unique(b);
}

/// The walk over a node's children yields each child once, in order. The
/// contracts of `children`, `Children::next` and `Children::next_back` say
/// that the `k`-th node a walk from the front yields is the red node for
/// child `k`, and that the `k`-th one from the back is that for child
/// `n - 1 - k`. Such nodes have the walked node as parent, `k` as index, the
/// green child and the offset after the children before it; they are the
/// nodes that `child` gives; and the walk from the back yields the walk
/// from the front reversed.
pub proof fn lemma_children_walk<L: Language>(parent: Red<L>, forward: Seq<Red<L>>, backward: Seq<Red<L>>)
    requires
        parent.wf(),
        forward.len() == parent.green_of().kids().len(),
        backward.len() == forward.len(),
        forall|k: int| 0 <= k < forward.len() ==> (#[trigger] forward[k]).is_child_of(parent, k),
        forall|k: int|
            0 <= k < backward.len() ==> (#[trigger] backward[k]).is_child_of(parent, forward.len() - 1 - k),
    ensures
        backward == forward.reverse(),
        forall|k: int|
            0 <= k < forward.len() ==> {
                &&& (#[trigger] forward[k]).parent_of() == Some(parent)
                &&& forward[k].index_of() == Some(k)
                &&& forward[k].green_of() == parent.green_of().kids()[k]
                &&& forward[k].offset_of() == parent.offset_of() + prefix_width(parent.green_of().kids(), k)
            },
        forall|c: Red<L>, k: int| #[trigger] c.is_child_of(parent, k) ==> c == forward[k],
{
    let n = forward.len();
    assert forall|k: int| 0 <= k < n implies #[trigger] backward[k] == forward.reverse()[k] by {
        backward[k].lemma_unique(forward[n - 1 - k]);
    }
    assert(backward =~= forward.reverse());
    assert forall|c: Red<L>, k: int| #[trigger] c.is_child_of(parent, k) implies c == forward[k] by {
        c.lemma_unique(forward[k]);
    }
}

/// A prefix of a valid path is valid.
pub proof fn lemma_valid_prefix<L: Language>(root: Green<L>, p: Seq<int>, i: int)
    requires
        root.valid_path(p.push(i)),
    ensures
        root.valid_path(p),
    decreases p.len(),
{
    if p.len() > 0 {
        assert(p.push(i).drop_first() =~= p.drop_first().push(i));
        assert(p.push(i)[0] == p[0]);
        lemma_valid_prefix(root.kids()[p[0]], p.drop_first(), i);
    }
}

} // verus!
