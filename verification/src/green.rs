//! Green trees: immutable, parentless syntax tree data.
use crate::lang::{composes, Language};
use crate::text::TextSize;
use std::sync::Arc;
use vstd::prelude::*;

verus! {

/// Immutable green tree data: a kind, a width, a payload and, for non-token
/// nodes, children. It has no parent pointer and no absolute offset.
pub struct GreenNode<L: Language> {
    kind: L::Kind,
    width: TextSize,
    payload: L::Payload,
    children: Option<Vec<Green<L>>>,
}

/// Shared immutable green tree element: an `Arc` handle around a
/// [`GreenNode`].
pub struct Green<L: Language>(Arc<GreenNode<L>>);

/// The sum of the widths of a sequence of green elements.
pub open spec fn sum_widths<L: Language>(s: Seq<Green<L>>) -> nat
    decreases s.len(),
{
    if s.len() == 0 {
        0
    } else {
        sum_widths(s.drop_last()) + s.last().width_of()
    }
}

/// The total width of the first `i` elements of `s`.
pub open spec fn prefix_width<L: Language>(s: Seq<Green<L>>, i: int) -> nat {
    sum_widths(s.take(i))
}

/// Every element of `s` is well formed.
pub open spec fn all_wf<L: Language>(s: Seq<Green<L>>) -> bool {
    forall|i: int| 0 <= i < s.len() ==> (#[trigger] s[i]).wf()
}

/// `s` with the elements in `start..end` replaced by `with`.
pub open spec fn splice_seq<T>(s: Seq<T>, start: int, end: int, with: Seq<T>) -> Seq<T> {
    s.take(start) + with + s.skip(end)
}

/// `g` is the node that `Green::node` builds from `kind` and `children`: same
/// kind and children, the summed width, a payload composed by the language,
/// and well formed.
pub open spec fn built_from<L: Language>(g: Green<L>, kind: L::Kind, children: Seq<Green<L>>) -> bool {
    &&& g.kind_of() == kind
    &&& g.children_of() == Some(children)
    &&& g.width_of() == sum_widths(children)
    &&& composes::<L>(kind, children, g.payload_of())
    &&& g.wf()
}

impl<L: Language> GreenNode<L> {
    pub closed spec fn kind_of(self) -> L::Kind {
        self.kind
    }

    pub closed spec fn width_of(self) -> nat {
        self.width@
    }

    pub closed spec fn payload_of(self) -> L::Payload {
        self.payload
    }

    /// `None` for a token, the children of a node otherwise.
    pub closed spec fn children_of(self) -> Option<Seq<Green<L>>> {
        match self.children {
            Some(c) => Some(c@),
            None => None,
        }
    }

    pub open spec fn is_token_of(self) -> bool {
        self.children_of() is None
    }

    /// The children, empty for a token.
    pub open spec fn kids(self) -> Seq<Green<L>> {
        match self.children_of() {
            Some(c) => c,
            None => Seq::empty(),
        }
    }

    /// A node's width is the sum of its children's widths, recursively.
    pub closed spec fn wf(self) -> bool
        decreases self,
    {
        match self.children {
            None => true,
            Some(c) => self.width@ == sum_widths(c@) && forall|i: int|
                0 <= i < c@.len() ==> (*c@[i].0).wf(),
        }
    }
}

impl<L: Language> Green<L> {
    /// The node this handle points to.
    pub closed spec fn node_of(self) -> GreenNode<L> {
        *self.0
    }

    pub open spec fn kind_of(self) -> L::Kind {
        self.node_of().kind_of()
    }

    pub open spec fn width_of(self) -> nat {
        self.node_of().width_of()
    }

    pub open spec fn payload_of(self) -> L::Payload {
        self.node_of().payload_of()
    }

    pub open spec fn children_of(self) -> Option<Seq<Green<L>>> {
        self.node_of().children_of()
    }

    pub open spec fn is_token_of(self) -> bool {
        self.node_of().is_token_of()
    }

    pub open spec fn kids(self) -> Seq<Green<L>> {
        self.node_of().kids()
    }

    pub open spec fn wf(self) -> bool {
        self.node_of().wf()
    }

    /// What well-formedness says of one level of the tree.
    pub proof fn lemma_wf(self)
        requires
            self.wf(),
        ensures
            !self.is_token_of() ==> self.width_of() == sum_widths(self.kids()),
            all_wf(self.kids()),
            self.width_of() <= u32::MAX,
    {
        self.0.width.lemma_view_bounded();
    }

    /// A child is structurally smaller than its parent.
    pub proof fn lemma_kid_decreases(self, i: int)
        requires
            0 <= i < self.kids().len(),
        ensures
            decreases_to!(self => self.kids()[i]),
    {
        let c = self.0.children->0;
        assert(decreases_to!(self => c@[i]));
    }
}

/// `sum_widths` distributes over concatenation.
pub proof fn lemma_sum_widths_concat<L: Language>(a: Seq<Green<L>>, b: Seq<Green<L>>)
    ensures
        sum_widths(a + b) == sum_widths(a) + sum_widths(b),
    decreases b.len(),
{
    if b.len() == 0 {
        assert(a + b =~= a);
    } else {
        lemma_sum_widths_concat(a, b.drop_last());
        assert((a + b).drop_last() =~= a + b.drop_last());
    }
}

/// `sum_widths` after replacing one element.
pub proof fn lemma_sum_widths_update<L: Language>(s: Seq<Green<L>>, i: int, x: Green<L>)
    requires
        0 <= i < s.len(),
    ensures
        sum_widths(s.update(i, x)) + s[i].width_of() == sum_widths(s) + x.width_of(),
{
    let a = s.take(i);
    let b = s.skip(i + 1);
    assert(s =~= a + seq![s[i]] + b);
    assert(s.update(i, x) =~= a + seq![x] + b);
    lemma_sum_widths_concat(a + seq![s[i]], b);
    lemma_sum_widths_concat(a + seq![x], b);
    lemma_sum_widths_concat(a, seq![s[i]]);
    lemma_sum_widths_concat(a, seq![x]);
    assert(seq![x].drop_last() =~= Seq::<Green<L>>::empty());
    assert(seq![s[i]].drop_last() =~= Seq::<Green<L>>::empty());
}

/// Inserting an element adds its width to the sum.
pub proof fn lemma_sum_widths_insert<L: Language>(s: Seq<Green<L>>, i: int, x: Green<L>)
    requires
        0 <= i <= s.len(),
    ensures
        sum_widths(s.insert(i, x)) == sum_widths(s) + x.width_of(),
{
    let a = s.take(i);
    let b = s.skip(i);
    let one = seq![x];
    assert(s =~= a + b);
    assert(s.insert(i, x) =~= a + (one + b));
    assert(one.drop_last() =~= Seq::<Green<L>>::empty());
    assert(sum_widths(Seq::<Green<L>>::empty()) == 0);
    assert(sum_widths(one) == x.width_of());
    lemma_sum_widths_concat(a, b);
    lemma_sum_widths_concat(a, one + b);
    lemma_sum_widths_concat(one, b);
}

/// Removing an element takes its width off the sum.
pub proof fn lemma_sum_widths_remove<L: Language>(s: Seq<Green<L>>, i: int)
    requires
        0 <= i < s.len(),
    ensures
        sum_widths(s.remove(i)) + s[i].width_of() == sum_widths(s),
{
    lemma_sum_widths_insert(s.remove(i), i, s[i]);
    assert(s.remove(i).insert(i, s[i]) =~= s);
}

/// Prefix widths grow by one element at a time and never exceed the total.
pub proof fn lemma_prefix_width<L: Language>(s: Seq<Green<L>>, i: int, j: int)
    requires
        0 <= i <= j <= s.len(),
    ensures
        prefix_width(s, i) <= prefix_width(s, j) <= sum_widths(s),
        j < s.len() ==> prefix_width(s, j + 1) == prefix_width(s, j) + s[j].width_of(),
        prefix_width(s, s.len() as int) == sum_widths(s),
        prefix_width(s, 0) == 0,
{
    assert(s.take(j) =~= s.take(i) + s.subrange(i, j));
    lemma_sum_widths_concat(s.take(i), s.subrange(i, j));
    assert(s =~= s.take(j) + s.subrange(j, s.len() as int));
    lemma_sum_widths_concat(s.take(j), s.subrange(j, s.len() as int));
    if j < s.len() {
        assert(s.take(j + 1).drop_last() =~= s.take(j));
    }
    assert(s.take(s.len() as int) =~= s);
    assert(s.take(0) =~= Seq::<Green<L>>::empty());
}

/// Sums the widths of `children`.
fn sum_child_widths<L: Language>(children: &Vec<Green<L>>) -> (r: TextSize)
    requires
        sum_widths(children@) <= u32::MAX,
    ensures
        r@ == sum_widths(children@),
{
    let mut width: u32 = 0;
    let n = children.len();
    for i in 0..n
        invariant
            n == children@.len(),
            sum_widths(children@) <= u32::MAX,
            width == prefix_width(children@, i as int),
    {
        proof {
            lemma_prefix_width(children@, i as int, i as int);
            lemma_prefix_width(children@, i as int + 1, n as int);
        }
        width = width + children[i].0.width.to_u32();
    }
    proof {
        lemma_prefix_width(children@, n as int, n as int);
    }
    TextSize::new(width)
}

impl<L: Language> Clone for Green<L> {
    fn clone(&self) -> (r: Self)
        ensures
            r == *self,
    {
        Green(self.0.clone())
    }
}

impl<L: Language> PartialEq for Green<L> {
    /// Pointer identity: whether both handles point to the same allocation
    /// (`std::sync::Arc::ptr_eq`). Trusted: two handles to one allocation
    /// hold the same node; equal nodes in distinct allocations compare
    /// unequal, which no clause here can state.
    #[verifier::external_body]
    fn eq(&self, other: &Self) -> (r: bool)
        ensures
            r ==> *self == *other,
    {
        Arc::ptr_eq(&self.0, &other.0)
    }
}

impl<L: Language> Eq for Green<L> {

}

impl<L: Language> std::hash::Hash for Green<L> {
    /// Hashes the address of the shared node (`std::ptr::hash`), in line
    /// with the pointer-identity equality. Trusted, with no contract: the
    /// hasher's state after the call depends on the address.
    #[verifier::external_body]
    fn hash<H: std::hash::Hasher>(&self, state: &mut H) {
        std::ptr::hash(&*self.0, state)
    }
}

impl<L: Language> std::ops::Deref for Green<L> {
    type Target = GreenNode<L>;

    fn deref(&self) -> (r: &GreenNode<L>)
        ensures
            *r == self.node_of(),
    {
        &*self.0
    }
}

impl<L: Language> Green<L> {
    /// Creates a token green element with the payload supplied by the caller.
    pub fn token(kind: L::Kind, width: TextSize, payload: L::Payload) -> (r: Self)
        ensures
            r.kind_of() == kind,
            r.width_of() == width@,
            r.payload_of() == payload,
            r.children_of() is None,
            r.wf(),
    {
        Green(Arc::new(GreenNode { kind, width, payload, children: None }))
    }

    /// Creates a non-token green node from children.
    ///
    /// The width is the sum of the child widths; the payload is produced by
    /// `Language::compose_node` from the kind and the children.
    pub fn node(kind: L::Kind, children: Vec<Green<L>>) -> (r: Self)
        requires
            sum_widths(children@) <= u32::MAX,
            all_wf(children@),
        ensures
            built_from(r, kind, children@),
    {
        let width = sum_child_widths(&children);
        let payload = L::compose_node(kind, children.as_slice());
        let r = Green(Arc::new(GreenNode { kind, width, payload, children: Some(children) }));
        assert(r.wf());
        r
    }
}

impl<L: Language> GreenNode<L> {
    /// Returns this element's syntax kind.
    pub fn kind(&self) -> (r: L::Kind)
        ensures
            r == self.kind_of(),
    {
        self.kind
    }

    /// Returns this element's text width. The tree stores no source text:
    /// widths are enough to recover offsets in a red tree.
    pub fn width(&self) -> (r: TextSize)
        ensures
            r@ == self.width_of(),
    {
        self.width
    }

    /// Returns this element's user-defined payload.
    pub fn payload(&self) -> (r: &L::Payload)
        ensures
            *r == self.payload_of(),
    {
        &self.payload
    }

    /// Returns this node's green children: `None` for a token, `Some([])` for
    /// a node without children.
    pub fn children(&self) -> (r: Option<&[Green<L>]>)
        ensures
            r is Some <==> !self.is_token_of(),
            r matches Some(s) ==> s@ == self.kids(),
    {
        match &self.children {
            Some(c) => Some(c.as_slice()),
            None => None,
        }
    }

    /// Returns the number of green children, or `None` for tokens.
    pub fn child_count(&self) -> (r: Option<usize>)
        ensures
            r is Some <==> !self.is_token_of(),
            r matches Some(n) ==> n == self.kids().len(),
    {
        match &self.children {
            Some(c) => Some(c.len()),
            None => None,
        }
    }

    /// The offset of child `i` from the start of this node: the total width of
    /// the children before it.
    pub(crate) fn child_offset(&self, i: usize) -> (r: TextSize)
        requires
            self.wf(),
            i <= self.kids().len(),
        ensures
            r@ == prefix_width(self.kids(), i as int),
            r@ + (if i < self.kids().len() { self.kids()[i as int].width_of() } else { 0 }) <= self.width_of(),
    {
        proof {
            Green(Arc::new(*self)).lemma_wf();
            self.width.lemma_view_bounded();
            lemma_prefix_width(self.kids(), i as int, self.kids().len() as int);
            if i < self.kids().len() {
                lemma_prefix_width(self.kids(), i as int, i as int);
                lemma_prefix_width(self.kids(), i as int + 1, self.kids().len() as int);
            }
        }
        let kids = match &self.children {
            Some(c) => c,
            None => {
                return TextSize::new(0);
            },
        };
        let mut width: u32 = 0;
        for k in 0..i
            invariant
                i <= kids@.len(),
                kids@ == self.kids(),
                prefix_width(kids@, i as int) <= u32::MAX,
                width == prefix_width(kids@, k as int),
        {
            proof {
                lemma_prefix_width(kids@, k as int, k as int);
                lemma_prefix_width(kids@, k as int + 1, i as int);
            }
            width = width + kids[k].0.width.to_u32();
        }
        TextSize::new(width)
    }

    /// Returns whether this element is a token.
    pub fn is_token(&self) -> (r: bool)
        ensures
            r == self.is_token_of(),
    {
        self.children.is_none()
    }

    /// Replaces the children in `range` by `replace_with` and rebuilds this
    /// node, recomputing its width and payload.
    ///
    /// Returns `None` for tokens and for a range that is not a valid range of
    /// children (`start > end` or `end` past the last child).
    pub fn splice_children(&self, range: std::ops::Range<usize>, replace_with: Vec<Green<L>>) -> (r: Option<Green<L>>)
        requires
            self.wf(),
            all_wf(replace_with@),
            !self.is_token_of() && range.start <= range.end <= self.kids().len() ==> sum_widths(
                splice_seq(self.kids(), range.start as int, range.end as int, replace_with@),
            ) <= u32::MAX,
        ensures
            r is Some <==> (!self.is_token_of() && range.start <= range.end <= self.kids().len()),
            r matches Some(g) ==> built_from(
                g,
                self.kind_of(),
                splice_seq(self.kids(), range.start as int, range.end as int, replace_with@),
            ),
    {
        let old = match &self.children {
            Some(c) => c,
            None => {
                return None;
            },
        };
        let start = range.start;
        let end = range.end;
        if start > end || end > old.len() {
            return None;
        }
        proof {
            Green(Arc::new(*self)).lemma_wf();
        }
        let ghost target = splice_seq(old@, start as int, end as int, replace_with@);
        let mut children: Vec<Green<L>> = Vec::new();
        for i in 0..start
            invariant
                start <= end <= old@.len(),
                children@ =~= old@.take(i as int),
        {
            children.push(old[i].clone());
        }
        let ghost with = replace_with@;
        let mut replace_with = replace_with;
        children.append(&mut replace_with);
        let n = old.len();
        for i in end..n
            invariant
                start <= end <= old@.len(),
                n == old@.len(),
                children@ =~= old@.take(start as int) + with + old@.subrange(end as int, i as int),
        {
            children.push(old[i].clone());
        }
        assert(children@ =~= target);
        assert(all_wf(children@)) by {
            assert forall|k: int| 0 <= k < children@.len() implies (#[trigger] children@[k]).wf() by {
                if k < start {
                    assert(children@[k] == old@[k]);
                } else if k < start + with.len() {
                } else {
                    assert(children@[k] == old@[k - start - with.len() + end]);
                }
            }
        }
        Some(Green::node(self.kind, children))
    }

    /// Replaces the child at `index` and rebuilds this node.
    ///
    /// Returns `None` for tokens or an out-of-bounds index.
    pub fn replace_child(&self, index: usize, new_child: Green<L>) -> (r: Option<Green<L>>)
        requires
            self.wf(),
            new_child.wf(),
            !self.is_token_of() && index < self.kids().len() ==> sum_widths(
                self.kids().update(index as int, new_child),
            ) <= u32::MAX,
        ensures
            r is Some <==> (!self.is_token_of() && index < self.kids().len()),
            r matches Some(g) ==> built_from(g, self.kind_of(), self.kids().update(index as int, new_child)),
    {
        let n = match &self.children {
            Some(c) => c.len(),
            None => {
                return None;
            },
        };
        if index >= n {
            return None;
        }
        assert(splice_seq(self.kids(), index as int, index + 1, seq![new_child]) =~= self.kids().update(
            index as int,
            new_child,
        ));
        let with = vec![new_child];
        assert(with@ =~= seq![new_child]);
        self.splice_children(index..index + 1, with)
    }

    /// Inserts a child at `index` and rebuilds this node.
    ///
    /// Returns `None` for tokens or an out-of-bounds index (past the end).
    pub fn insert_child(&self, index: usize, new_child: Green<L>) -> (r: Option<Green<L>>)
        requires
            self.wf(),
            new_child.wf(),
            !self.is_token_of() && index <= self.kids().len() ==> sum_widths(
                self.kids().insert(index as int, new_child),
            ) <= u32::MAX,
        ensures
            r is Some <==> (!self.is_token_of() && index <= self.kids().len()),
            r matches Some(g) ==> built_from(g, self.kind_of(), self.kids().insert(index as int, new_child)),
    {
        let n = match &self.children {
            Some(c) => c.len(),
            None => {
                return None;
            },
        };
        if index > n {
            return None;
        }
        assert(splice_seq(self.kids(), index as int, index as int, seq![new_child]) =~= self.kids().insert(
            index as int,
            new_child,
        ));
        let with = vec![new_child];
        assert(with@ =~= seq![new_child]);
        self.splice_children(index..index, with)
    }

    /// Removes the child at `index` and rebuilds this node.
    ///
    /// Returns `None` for tokens or an out-of-bounds index.
    pub fn remove_child(&self, index: usize) -> (r: Option<Green<L>>)
        requires
            self.wf(),
        ensures
            r is Some <==> (!self.is_token_of() && index < self.kids().len()),
            r matches Some(g) ==> built_from(g, self.kind_of(), self.kids().remove(index as int)),
    {
        let n = match &self.children {
            Some(c) => c.len(),
            None => {
                return None;
            },
        };
        if index >= n {
            return None;
        }
        proof {
            let k = self.kids();
            assert(splice_seq(k, index as int, index + 1, Seq::empty()) =~= k.remove(index as int));
            lemma_sum_widths_remove(k, index as int);
            Green(Arc::new(*self)).lemma_wf();
            self.width.lemma_view_bounded();
        }
        let with: Vec<Green<L>> = Vec::new();
        assert(with@ =~= Seq::<Green<L>>::empty());
        self.splice_children(index..index + 1, with)
    }
}

impl<L: Language> Green<L> {
    /// `p` is a path of child indexes that leads from this element to one of
    /// its descendants (or to itself, for the empty path).
    pub open spec fn valid_path(self, p: Seq<int>) -> bool
        decreases p.len(),
    {
        p.len() == 0 || (0 <= p[0] < self.kids().len() && self.kids()[p[0]].valid_path(p.drop_first()))
    }

    /// The descendant that the path `p` leads to.
    pub open spec fn subtree(self, p: Seq<int>) -> Green<L>
        decreases p.len(),
    {
        if p.len() == 0 {
            self
        } else {
            self.kids()[p[0]].subtree(p.drop_first())
        }
    }

    /// The offset, from this element's start, of the descendant that `p` leads to.
    pub open spec fn offset_at(self, p: Seq<int>) -> nat
        decreases p.len(),
    {
        if p.len() == 0 {
            0
        } else {
            prefix_width(self.kids(), p[0]) + self.kids()[p[0]].offset_at(p.drop_first())
        }
    }

    /// The path to the first leaf: follows first children down to an element
    /// without children.
    pub open spec fn first_leaf(self) -> Seq<int>
        decreases self,
    {
        if self.kids().len() == 0 {
            Seq::empty()
        } else {
            proof {
                self.lemma_kid_decreases(0);
            }
            seq![0int] + self.kids()[0].first_leaf()
        }
    }

    /// The path to the last leaf: follows last children down to an element
    /// without children.
    pub open spec fn last_leaf(self) -> Seq<int>
        decreases self,
    {
        if self.kids().len() == 0 {
            Seq::empty()
        } else {
            proof {
                self.lemma_kid_decreases(self.kids().len() - 1);
            }
            seq![self.kids().len() - 1] + self.kids()[self.kids().len() - 1].last_leaf()
        }
    }

    /// Extending a valid path by one child index.
    pub proof fn lemma_path_push(self, p: Seq<int>, i: int)
        requires
            self.valid_path(p),
        ensures
            self.valid_path(p.push(i)) <==> 0 <= i < self.subtree(p).kids().len(),
            0 <= i < self.subtree(p).kids().len() ==> {
                &&& self.subtree(p.push(i)) == self.subtree(p).kids()[i]
                &&& self.offset_at(p.push(i)) == self.offset_at(p) + prefix_width(self.subtree(p).kids(), i)
            },
        decreases p.len(),
    {
        if p.len() == 0 {
            assert(p.push(i).drop_first() =~= Seq::<int>::empty());
            assert(p.push(i)[0] == i);
            if 0 <= i < self.kids().len() {
                assert(self.kids()[i].valid_path(Seq::<int>::empty()));
                assert(self.kids()[i].subtree(Seq::<int>::empty()) == self.kids()[i]);
                assert(self.kids()[i].offset_at(Seq::<int>::empty()) == 0);
            }
        } else {
            assert(p.push(i).drop_first() =~= p.drop_first().push(i));
            assert(p.push(i)[0] == p[0]);
            self.kids()[p[0]].lemma_path_push(p.drop_first(), i);
        }
    }

    /// What a valid path of a well-formed tree leads to is well formed and
    /// lies within the tree's width.
    pub proof fn lemma_path_within(self, p: Seq<int>)
        requires
            self.wf(),
            self.valid_path(p),
        ensures
            self.subtree(p).wf(),
            self.offset_at(p) + self.subtree(p).width_of() <= self.width_of(),
        decreases p.len(),
    {
        if p.len() > 0 {
            self.lemma_wf();
            let k = self.kids();
            assert(k[p[0]].wf());
            k[p[0]].lemma_path_within(p.drop_first());
            lemma_prefix_width(k, p[0], p[0]);
            lemma_prefix_width(k, p[0] + 1, k.len() as int);
        }
    }

    /// A path followed by a further path.
    pub proof fn lemma_path_concat(self, p: Seq<int>, q: Seq<int>)
        requires
            self.valid_path(p),
        ensures
            self.valid_path(p + q) <==> self.subtree(p).valid_path(q),
            self.subtree(p + q) == self.subtree(p).subtree(q),
            self.offset_at(p + q) == self.offset_at(p) + self.subtree(p).offset_at(q),
        decreases p.len(),
    {
        if p.len() == 0 {
            assert(p + q =~= q);
        } else {
            assert((p + q).drop_first() =~= p.drop_first() + q);
            self.kids()[p[0]].lemma_path_concat(p.drop_first(), q);
        }
    }
}

/// One line of a debug dump: an element, its depth below the dumped root and
/// its text range.
pub struct DumpLine<L: Language> {
    pub depth: usize,
    pub green: Green<L>,
    pub start: TextSize,
    pub end: TextSize,
}

/// The depth one level below `d`; depths stop growing at the largest `usize`.
pub open spec fn deeper(d: int) -> int {
    if d < usize::MAX {
        d + 1
    } else {
        d
    }
}

/// The dump of `g` at `depth` starting at `start`: `g` itself, then the dumps
/// of its children one level deeper, each at its own start offset.
pub open spec fn dump_spec<L: Language>(g: Green<L>, depth: int, start: int) -> Seq<(int, Green<L>, int)>
    decreases g, g.kids().len() + 1,
{
    seq![(depth, g, start)] + dump_kids(g, depth, start, 0)
}

/// The dumps of the children of `g` from child `i` on.
pub open spec fn dump_kids<L: Language>(g: Green<L>, depth: int, start: int, i: nat) -> Seq<(int, Green<L>, int)>
    decreases g, g.kids().len() - i,
{
    if i < g.kids().len() {
        proof {
            g.lemma_kid_decreases(i as int);
        }
        dump_spec(g.kids()[i as int], deeper(depth), start + prefix_width(g.kids(), i as int)) + dump_kids(
            g,
            depth,
            start,
            i + 1,
        )
    } else {
        Seq::empty()
    }
}

/// The view of a dump line: depth, element and start offset.
pub open spec fn dump_line_view<L: Language>(l: DumpLine<L>) -> (int, Green<L>, int) {
    (l.depth as int, l.green, l.start@ as int)
}

impl<L: Language> GreenNode<L> {
    fn dump_into(g: &Green<L>, sink: &mut Vec<DumpLine<L>>, depth: usize, start: TextSize)
        requires
            g.wf(),
            start@ + g.width_of() <= u32::MAX,
        ensures
            final(sink)@.map_values(|l: DumpLine<L>| dump_line_view(l)) == old(sink)@.map_values(
                |l: DumpLine<L>| dump_line_view(l),
            ) + dump_spec(*g, depth as int, start@ as int),
            forall|k: int|
                old(sink)@.len() <= k < final(sink)@.len() ==> (#[trigger] final(sink)@[k]).end@
                    == final(sink)@[k].start@ + final(sink)@[k].green.width_of(),
            forall|k: int| 0 <= k < old(sink)@.len() ==> #[trigger] final(sink)@[k] == old(sink)@[k],
        decreases *g,
    {
        let ghost before = sink@;
        proof {
            g.lemma_wf();
        }
        let end = TextSize::new(start.to_u32() + g.0.width.to_u32());
        sink.push(DumpLine { depth, green: g.clone(), start, end });
        let ghost kids = g.kids();
        let child_depth = if depth < usize::MAX {
            depth + 1
        } else {
            depth
        };
        if let Some(children) = &g.0.children {
            let n = children.len();
            let mut child_start = start;
            for i in 0..n
                invariant
                    n == kids.len(),
                    children@ == kids,
                    kids == g.kids(),
                    !g.is_token_of(),
                    g.wf(),
                    g.width_of() == sum_widths(kids),
                    all_wf(kids),
                    start@ + g.width_of() <= u32::MAX,
                    child_depth == deeper(depth as int),
                    child_start@ == start@ + prefix_width(kids, i as int),
                    sink@.map_values(|l: DumpLine<L>| dump_line_view(l)) + dump_kids(*g, depth as int, start@ as int, i as nat)
                        == before.map_values(|l: DumpLine<L>| dump_line_view(l)) + dump_spec(*g, depth as int, start@ as int),
                    sink@.len() > before.len(),
                    forall|k: int|
                        before.len() <= k < sink@.len() ==> (#[trigger] sink@[k]).end@
                            == sink@[k].start@ + sink@[k].green.width_of(),
                    forall|k: int| 0 <= k < before.len() ==> #[trigger] sink@[k] == before[k],
            {
                proof {
                    lemma_prefix_width(kids, i as int, i as int);
                    lemma_prefix_width(kids, i as int + 1, n as int);
                    g.lemma_kid_decreases(i as int);
                }
                let ghost mid = sink@;
                let child = &children[i];
                Self::dump_into(child, sink, child_depth, child_start);
                child_start = TextSize::new(child_start.to_u32() + child.0.width.to_u32());
                proof {
                    assert(dump_kids(*g, depth as int, start@ as int, i as nat) == dump_spec(
                        kids[i as int],
                        deeper(depth as int),
                        (start@ + prefix_width(kids, i as int)) as int,
                    ) + dump_kids(*g, depth as int, start@ as int, (i + 1) as nat));
                    assert forall|k: int| 0 <= k < before.len() implies #[trigger] sink@[k] == before[k] by {
                        assert(sink@[k] == mid[k]);
                    }
                    assert forall|k: int| before.len() <= k < sink@.len() implies (#[trigger] sink@[k]).end@
                        == sink@[k].start@ + sink@[k].green.width_of() by {
                        if k < mid.len() {
                            assert(sink@[k] == mid[k]);
                        }
                    }
                }
            }
            proof {
                assert(dump_kids(*g, depth as int, start@ as int, n as nat) =~= Seq::<(int, Green<L>, int)>::empty());
            }
        } else {
            proof {
                assert(dump_kids(*g, depth as int, start@ as int, 0) =~= Seq::<(int, Green<L>, int)>::empty());
                assert(sink@.map_values(|l: DumpLine<L>| dump_line_view(l)) =~= before.map_values(
                    |l: DumpLine<L>| dump_line_view(l),
                ) + dump_spec(*g, depth as int, start@ as int));
            }
        }
    }
}

impl<L: Language> Green<L> {
    /// The lines of a debug dump of this tree: every element in preorder,
    /// with its depth and its text range counted from this element's start.
    /// Depths stop growing at the largest `usize`.
    pub fn dump_lines(&self) -> (r: Vec<DumpLine<L>>)
        requires
            self.wf(),
        ensures
            r@.map_values(|l: DumpLine<L>| dump_line_view(l)) == dump_spec(*self, 0, 0),
            forall|k: int| 0 <= k < r@.len() ==> (#[trigger] r@[k]).end@ == r@[k].start@ + r@[k].green.width_of(),
    {
        let mut r: Vec<DumpLine<L>> = Vec::new();
        proof {
            self.lemma_wf();
        }
        GreenNode::dump_into(self, &mut r, 0, TextSize::new(0));
        proof {
            assert(Seq::<DumpLine<L>>::empty().map_values(|l: DumpLine<L>| dump_line_view(l)) =~= Seq::<
                (int, Green<L>, int),
            >::empty());
        }
        r
    }
}

/// An offset strictly after the start of a sequence of elements and not
/// past its end falls in, or at the end of, one of the elements.
pub proof fn lemma_find_child<L: Language>(s: Seq<Green<L>>, o: int) -> (i: int)
    requires
        0 < o <= sum_widths(s),
    ensures
        0 <= i < s.len(),
        prefix_width(s, i) < o <= prefix_width(s, i) + s[i].width_of(),
    decreases s.len(),
{
    let n = s.len() - 1;
    if s.len() == 0 {
        assert(false);
        0
    } else {
        let d = s.drop_last();
        if o <= sum_widths(d) {
            let j = lemma_find_child(d, o);
            assert(s.take(j) =~= d.take(j));
            j
        } else {
            assert(s.take(n) =~= d);
            n
        }
    }
}

/// Removing a child that was just inserted gives back the children, and with
/// them the width, that the node had before; the kind is kept throughout.
pub proof fn lemma_insert_then_remove<L: Language>(
    g: Green<L>,
    i: int,
    x: Green<L>,
    inserted: Green<L>,
    removed: Green<L>,
)
    requires
        g.wf(),
        !g.is_token_of(),
        0 <= i <= g.kids().len(),
        built_from(inserted, g.kind_of(), g.kids().insert(i, x)),
        built_from(removed, inserted.kind_of(), inserted.kids().remove(i)),
    ensures
        removed.kind_of() == g.kind_of(),
        removed.kids() == g.kids(),
        removed.width_of() == g.width_of(),
{
    assert(g.kids().insert(i, x).remove(i) =~= g.kids());
    g.lemma_wf();
}

/// The paths, from `g`, of the tokens in `g`'s subtree, in source order: `g`
/// itself when it is a token, else the tokens of its children in order.
pub open spec fn tokens_of<L: Language>(g: Green<L>) -> Seq<Seq<int>>
    decreases g, g.kids().len() + 1,
{
    if g.is_token_of() {
        seq![Seq::<int>::empty()]
    } else {
        tokens_of_kids(g, 0)
    }
}

/// The paths `q` of `qs`, each with the child index `i` put in front.
pub open spec fn prepend_all(i: int, qs: Seq<Seq<int>>) -> Seq<Seq<int>> {
    qs.map_values(|q: Seq<int>| seq![i] + q)
}

/// The tokens, as paths from `g`, of the children of `g` from child `i` on.
pub open spec fn tokens_of_kids<L: Language>(g: Green<L>, i: nat) -> Seq<Seq<int>>
    decreases g, g.kids().len() - i,
{
    if i < g.kids().len() {
        proof {
            g.lemma_kid_decreases(i as int);
        }
        prepend_all(i as int, tokens_of(g.kids()[i as int])) + tokens_of_kids(g, i + 1)
    } else {
        Seq::empty()
    }
}

/// The tokens, as paths from `g`, of the children of `g` before child `i`.
pub open spec fn tokens_before<L: Language>(g: Green<L>, i: nat) -> Seq<Seq<int>>
    decreases i,
{
    if i == 0 || i > g.kids().len() {
        Seq::empty()
    } else {
        tokens_before(g, (i - 1) as nat) + prepend_all(i - 1, tokens_of(g.kids()[i - 1]))
    }
}

/// The elements at the paths `ts` from `g` lie end to end, from offset `a`
/// to offset `b`.
pub open spec fn end_to_end<L: Language>(g: Green<L>, ts: Seq<Seq<int>>, a: int, b: int) -> bool
    decreases ts.len(),
{
    if ts.len() == 0 {
        a == b
    } else {
        g.offset_at(ts[0]) == a && end_to_end(g, ts.drop_first(), a + g.subtree(ts[0]).width_of(), b)
    }
}

/// The tokens of the children split at any child.
pub proof fn lemma_tokens_split<L: Language>(g: Green<L>, i: nat)
    requires
        i <= g.kids().len(),
    ensures
        tokens_of_kids(g, 0) == tokens_before(g, i) + tokens_of_kids(g, i),
        i == g.kids().len() && !g.is_token_of() ==> tokens_of(g) == tokens_before(g, i),
    decreases i,
{
    if i > 0 {
        lemma_tokens_split(g, (i - 1) as nat);
        assert(tokens_of_kids(g, (i - 1) as nat) == prepend_all(i - 1, tokens_of(g.kids()[i - 1]))
            + tokens_of_kids(g, i));
        assert(tokens_before(g, (i - 1) as nat) + tokens_of_kids(g, (i - 1) as nat) =~= tokens_before(g, i)
            + tokens_of_kids(g, i));
    } else {
        assert(tokens_of_kids(g, 0) =~= Seq::<Seq<int>>::empty() + tokens_of_kids(g, 0));
    }
    if i == g.kids().len() {
        assert(tokens_of_kids(g, i) =~= Seq::<Seq<int>>::empty());
        assert(tokens_before(g, i) + tokens_of_kids(g, i) =~= tokens_before(g, i));
    }
}

/// Joining two runs of elements that lie end to end.
pub proof fn lemma_end_to_end_concat<L: Language>(
    g: Green<L>,
    s: Seq<Seq<int>>,
    t: Seq<Seq<int>>,
    a: int,
    m: int,
    b: int,
)
    requires
        end_to_end(g, s, a, m),
        end_to_end(g, t, m, b),
    ensures
        end_to_end(g, s + t, a, b),
    decreases s.len(),
{
    if s.len() == 0 {
        assert(s + t =~= t);
    } else {
        lemma_end_to_end_concat(g, s.drop_first(), t, a + g.subtree(s[0]).width_of(), m, b);
        assert((s + t).drop_first() =~= s.drop_first() + t);
    }
}

/// Elements of child `i` that lie end to end, seen from the parent.
pub proof fn lemma_end_to_end_prepend<L: Language>(g: Green<L>, i: int, ts: Seq<Seq<int>>, a: int, b: int)
    requires
        0 <= i < g.kids().len(),
        end_to_end(g.kids()[i], ts, a, b),
    ensures
        end_to_end(g, prepend_all(i, ts), a + prefix_width(g.kids(), i), b + prefix_width(g.kids(), i)),
    decreases ts.len(),
{
    if ts.len() > 0 {
        let q = ts[0];
        assert((seq![i] + q).drop_first() =~= q);
        assert((seq![i] + q)[0] == i);
        lemma_end_to_end_prepend(g, i, ts.drop_first(), a + g.kids()[i].subtree(q).width_of(), b);
        assert(prepend_all(i, ts).drop_first() =~= prepend_all(i, ts.drop_first()));
    } else {
        assert(prepend_all(i, ts) =~= Seq::<Seq<int>>::empty());
    }
}

/// The tokens of a well-formed element lead to tokens and tile its range:
/// they lie end to end from its start to its end.
pub proof fn lemma_tokens_tile<L: Language>(g: Green<L>)
    requires
        g.wf(),
    ensures
        end_to_end(g, tokens_of(g), 0, g.width_of() as int),
        forall|k: int|
            0 <= k < tokens_of(g).len() ==> g.valid_path(#[trigger] tokens_of(g)[k]) && g.subtree(
                tokens_of(g)[k],
            ).is_token_of(),
    decreases g, g.kids().len() + 1,
{
    g.lemma_wf();
    if g.is_token_of() {
        let e = Seq::<int>::empty();
        assert(tokens_of(g)[0] == e);
        assert(tokens_of(g).drop_first() =~= Seq::<Seq<int>>::empty());
        assert(g.offset_at(e) == 0);
        assert(g.subtree(e) == g);
        assert(g.valid_path(e));
        assert(end_to_end(g, Seq::<Seq<int>>::empty(), g.width_of() as int, g.width_of() as int));
    } else {
        lemma_tokens_kids_tile(g, 0);
        lemma_prefix_width(g.kids(), 0, g.kids().len() as int);
        assert(tokens_of(g) == tokens_of_kids(g, 0));
    }
}

/// The tokens of the children from child `i` on lead to tokens and lie end
/// to end from the start of child `i` to the end of the parent.
pub proof fn lemma_tokens_kids_tile<L: Language>(g: Green<L>, i: nat)
    requires
        g.wf(),
        !g.is_token_of(),
        i <= g.kids().len(),
    ensures
        end_to_end(g, tokens_of_kids(g, i), prefix_width(g.kids(), i as int) as int, g.width_of() as int),
        forall|k: int|
            0 <= k < tokens_of_kids(g, i).len() ==> g.valid_path(#[trigger] tokens_of_kids(g, i)[k])
                && g.subtree(tokens_of_kids(g, i)[k]).is_token_of(),
    decreases g, g.kids().len() - i,
{
    g.lemma_wf();
    let k = g.kids();
    lemma_prefix_width(k, i as int, k.len() as int);
    if i < k.len() {
        g.lemma_kid_decreases(i as int);
        lemma_tokens_tile(k[i as int]);
        lemma_tokens_kids_tile(g, i + 1);
        lemma_prefix_width(k, i as int, i as int);
        let ts = tokens_of(k[i as int]);
        lemma_end_to_end_prepend(g, i as int, ts, 0, k[i as int].width_of() as int);
        lemma_end_to_end_concat(
            g,
            prepend_all(i as int, ts),
            tokens_of_kids(g, i + 1),
            prefix_width(k, i as int) as int,
            prefix_width(k, i as int + 1) as int,
            g.width_of() as int,
        );
        let all = tokens_of_kids(g, i);
        assert forall|j: int| 0 <= j < all.len() implies g.valid_path(#[trigger] all[j]) && g.subtree(
            all[j],
        ).is_token_of() by {
            if j < ts.len() {
                let q = ts[j];
                assert(all[j] == seq![i as int] + q);
                assert((seq![i as int] + q).drop_first() =~= q);
                assert((seq![i as int] + q)[0] == i as int);
            } else {
                assert(all[j] == tokens_of_kids(g, i + 1)[j - ts.len()]);
            }
        }
    } else {
        assert(tokens_of_kids(g, i) =~= Seq::<Seq<int>>::empty());
    }
}

/// Elements that lie end to end are in order: each starts where the one
/// before it ends, none starts before `a` nor ends after `b`.
pub proof fn lemma_end_to_end_order<L: Language>(g: Green<L>, ts: Seq<Seq<int>>, a: int, b: int, i: int, j: int)
    requires
        end_to_end(g, ts, a, b),
        0 <= i <= j < ts.len(),
    ensures
        a <= g.offset_at(ts[i]),
        g.offset_at(ts[j]) + g.subtree(ts[j]).width_of() <= b,
        i < j ==> g.offset_at(ts[i]) + g.subtree(ts[i]).width_of() <= g.offset_at(ts[j]),
        j == i + 1 ==> g.offset_at(ts[i]) + g.subtree(ts[i]).width_of() == g.offset_at(ts[j]),
        i == 0 ==> g.offset_at(ts[i]) == a,
        j == ts.len() - 1 ==> g.offset_at(ts[j]) + g.subtree(ts[j]).width_of() == b,
    decreases ts.len(),
{
    let a2 = a + g.subtree(ts[0]).width_of();
    let rest = ts.drop_first();
    if j > 0 {
        if i > 0 {
            lemma_end_to_end_order(g, rest, a2, b, i - 1, j - 1);
        } else {
            lemma_end_to_end_order(g, rest, a2, b, 0, j - 1);
        }
        assert(rest[j - 1] == ts[j]);
        if i > 0 {
            assert(rest[i - 1] == ts[i]);
        }
    } else {
        assert(end_to_end(g, rest, a2, b));
        if rest.len() > 0 {
            lemma_end_to_end_order(g, rest, a2, b, 0, 0);
            assert(rest[0] == ts[1]);
        } else {
            assert(a2 == b);
        }
    }
}

/// The elements at the paths `ts` from `g`.
pub open spec fn elements_at<L: Language>(g: Green<L>, ts: Seq<Seq<int>>) -> Seq<Green<L>> {
    ts.map_values(|q: Seq<int>| g.subtree(q))
}

/// Elements that lie end to end from `a` to `b` each start at `a` plus the
/// widths of those before them, and their widths add up to `b - a`.
pub proof fn lemma_end_to_end_offsets<L: Language>(g: Green<L>, ts: Seq<Seq<int>>, a: int, b: int)
    requires
        end_to_end(g, ts, a, b),
    ensures
        forall|k: int|
            0 <= k < ts.len() ==> g.offset_at(#[trigger] ts[k]) == a + prefix_width(elements_at(g, ts), k),
        b == a + sum_widths(elements_at(g, ts)),
    decreases ts.len(),
{
    let s = elements_at(g, ts);
    if ts.len() == 0 {
        assert(s =~= Seq::<Green<L>>::empty());
    } else {
        let rest = ts.drop_first();
        let w = g.subtree(ts[0]).width_of();
        lemma_end_to_end_offsets(g, rest, a + w, b);
        let sr = elements_at(g, rest);
        let first = seq![s[0]];
        assert(s[0] == g.subtree(ts[0]));
        assert(first.drop_last() =~= Seq::<Green<L>>::empty());
        assert(first.last() == s[0]);
        assert(sum_widths(Seq::<Green<L>>::empty()) == 0);
        assert(sum_widths(first) == w);
        assert forall|k: int| 0 <= k < ts.len() implies g.offset_at(#[trigger] ts[k]) == a + prefix_width(s, k) by {
            if k == 0 {
                assert(s.take(0) =~= Seq::<Green<L>>::empty());
            } else {
                assert(ts[k] == rest[k - 1]);
                assert(s.take(k) =~= first + sr.take(k - 1));
                lemma_sum_widths_concat(first, sr.take(k - 1));
            }
        }
        assert(s =~= first + sr);
        lemma_sum_widths_concat(first, sr);
    }
}


impl<L: Language> Green<L> {
    /// The first and last leaf paths are valid and lead to elements without
    /// children.
    pub proof fn lemma_leaves_valid(self)
        ensures
            self.valid_path(self.first_leaf()),
            self.valid_path(self.last_leaf()),
            self.subtree(self.first_leaf()).kids().len() == 0,
            self.subtree(self.last_leaf()).kids().len() == 0,
        decreases self,
    {
        if self.kids().len() > 0 {
            let n = self.kids().len() - 1;
            self.lemma_kid_decreases(0);
            self.lemma_kid_decreases(n);
            self.kids()[0].lemma_leaves_valid();
            self.kids()[n].lemma_leaves_valid();
            assert((seq![0int] + self.kids()[0].first_leaf()).drop_first() =~= self.kids()[0].first_leaf());
            assert((seq![n] + self.kids()[n].last_leaf()).drop_first() =~= self.kids()[n].last_leaf());
        }
    }

    /// The first leaf starts where this element starts, and the last leaf
    /// ends where it ends.
    pub proof fn lemma_leaf_offsets(self)
        requires
            self.wf(),
        ensures
            self.offset_at(self.first_leaf()) == 0,
            self.offset_at(self.last_leaf()) + self.subtree(self.last_leaf()).width_of() == self.width_of(),
        decreases self,
    {
        if self.kids().len() > 0 {
            let k = self.kids();
            let n = k.len() - 1;
            self.lemma_wf();
            self.lemma_kid_decreases(0);
            self.lemma_kid_decreases(n);
            k[0].lemma_leaf_offsets();
            k[n].lemma_leaf_offsets();
            lemma_prefix_width(k, 0, 0);
            lemma_prefix_width(k, n, n);
            assert((seq![0int] + k[0].first_leaf()).drop_first() =~= k[0].first_leaf());
            assert((seq![n] + k[n].last_leaf()).drop_first() =~= k[n].last_leaf());
        } else {
            assert(self.first_leaf() =~= Seq::<int>::empty());
            assert(self.last_leaf() =~= Seq::<int>::empty());
        }
    }
}

/// The path from `g` to its first token; for a subtree without tokens, to
/// the element that following first children down reaches.
pub open spec fn first_token_path<L: Language>(g: Green<L>) -> Seq<int> {
    if tokens_of(g).len() > 0 {
        tokens_of(g)[0]
    } else {
        g.first_leaf()
    }
}

/// The path from `g` to its last token; for a subtree without tokens, to
/// the element that following last children down reaches.
pub open spec fn last_token_path<L: Language>(g: Green<L>) -> Seq<int> {
    if tokens_of(g).len() > 0 {
        tokens_of(g).last()
    } else {
        g.last_leaf()
    }
}

/// The first and last token paths lead to elements without children; the
/// first starts where `g` starts and the last ends where `g` ends.
pub proof fn lemma_end_token_paths<L: Language>(g: Green<L>)
    requires
        g.wf(),
    ensures
        g.valid_path(first_token_path(g)),
        g.valid_path(last_token_path(g)),
        g.subtree(first_token_path(g)).kids().len() == 0,
        g.subtree(last_token_path(g)).kids().len() == 0,
        g.offset_at(first_token_path(g)) == 0,
        g.offset_at(last_token_path(g)) + g.subtree(last_token_path(g)).width_of() == g.width_of(),
{
    let ts = tokens_of(g);
    g.lemma_leaves_valid();
    g.lemma_leaf_offsets();
    lemma_tokens_tile(g);
    if ts.len() > 0 {
        let n = ts.len() - 1;
        lemma_end_to_end_order(g, ts, 0, g.width_of() as int, 0, n);
        assert(g.subtree(ts[0]).is_token_of());
        assert(g.subtree(ts[n]).is_token_of());
    }
}


/// Splicing keeps the children before the range, puts the replacement in
/// place of the children in the range, and keeps the children from the
/// range's end on; the width changes by the widths put in less the widths
/// taken out, and the kind stays.
pub proof fn lemma_splice_children<L: Language>(
    old: Green<L>,
    new: Green<L>,
    start: int,
    end: int,
    with: Seq<Green<L>>,
)
    requires
        old.wf(),
        !old.is_token_of(),
        0 <= start <= end <= old.kids().len(),
        built_from(new, old.kind_of(), splice_seq(old.kids(), start, end, with)),
    ensures
        new.kind_of() == old.kind_of(),
        new.kids().len() == old.kids().len() - (end - start) + with.len(),
        forall|j: int| 0 <= j < start ==> new.kids()[j] == #[trigger] old.kids()[j],
        forall|j: int| 0 <= j < with.len() ==> new.kids()[start + j] == #[trigger] with[j],
        forall|j: int|
            end <= j < old.kids().len() ==> new.kids()[j - end + start + with.len()] == #[trigger] old.kids()[j],
        new.width_of() + sum_widths(old.kids().subrange(start, end)) == old.width_of() + sum_widths(with),
{
    let k = old.kids();
    let a = k.take(start);
    let m = k.subrange(start, end);
    let b = k.skip(end);
    old.lemma_wf();
    assert(k =~= a + m + b);
    lemma_sum_widths_concat(a, m);
    lemma_sum_widths_concat(a + m, b);
    lemma_sum_widths_concat(a, with);
    lemma_sum_widths_concat(a + with, b);
    assert(new.kids() == a + with + b);
}

} // verus!
