//! Event-style construction of green trees.
use crate::green::{all_wf, built_from, sum_widths, Green};
use crate::lang::Language;
use crate::text::TextSize;
use vstd::prelude::*;

verus! {

/// Errors reported while finishing an event-style tree build.
#[derive(Debug, Clone, Copy, PartialEq, Eq, Structural)]
pub enum BuildError {
    /// `finish_node` was called without a matching `start_node`.
    NoOpenNode,
    /// `finish` was called while at least one node was still open.
    UnclosedNode,
    /// `finish` did not end with exactly one root element.
    ExpectedSingleRoot,
}

/// Event-style builder for green trees.
///
/// Parsers push `start_node`, `token` and `finish_node` events as they
/// recognize syntax. Finished elements are attached to the innermost open
/// node, or to the top-level result list when no node is open.
pub struct Builder<L: Language> {
    stack: Vec<Frame<L>>,
    done: Vec<Green<L>>,
}

struct Frame<L: Language> {
    kind: L::Kind,
    children: Vec<Green<L>>,
}

/// `g` is the token that `Green::token` builds from these values.
pub open spec fn token_green<L: Language>(g: Green<L>, kind: L::Kind, width: nat, payload: L::Payload) -> bool {
    &&& g.kind_of() == kind
    &&& g.width_of() == width
    &&& g.payload_of() == payload
    &&& g.is_token_of()
    &&& g.wf()
}

impl<L: Language> Builder<L> {
    /// The open nodes, outermost first: each with its kind and the children
    /// finished so far.
    pub closed spec fn open_nodes(self) -> Seq<(L::Kind, Seq<Green<L>>)> {
        self.stack@.map_values(|f: Frame<L>| (f.kind, f.children@))
    }

    /// The finished top-level elements, in order.
    pub closed spec fn finished(self) -> Seq<Green<L>> {
        self.done@
    }

    /// Every element held by the builder is well formed.
    pub open spec fn wf(self) -> bool {
        &&& all_wf(self.finished())
        &&& forall|i: int| 0 <= i < self.open_nodes().len() ==> all_wf(#[trigger] self.open_nodes()[i].1)
    }

    /// The element most recently attached: the last child of the innermost
    /// open node, or the last top-level element when no node is open.
    pub open spec fn last_attached(self) -> Green<L> {
        if self.open_nodes().len() > 0 {
            self.open_nodes().last().1.last()
        } else {
            self.finished().last()
        }
    }

    /// `next` is this builder with `e` attached to the innermost open node, or
    /// to the top level when no node is open.
    pub open spec fn attached(self, next: Self, e: Green<L>) -> bool {
        let open = self.open_nodes();
        if open.len() > 0 {
            &&& next.finished() == self.finished()
            &&& next.open_nodes() == open.update(open.len() - 1, (open.last().0, open.last().1.push(e)))
        } else {
            &&& next.open_nodes() == open
            &&& next.finished() == self.finished().push(e)
        }
    }

    /// `next` is this builder with its innermost open node closed and `e`
    /// attached in its place.
    pub open spec fn closed_with(self, next: Self, e: Green<L>) -> bool {
        let open = self.open_nodes();
        if open.len() > 1 {
            let parent = open[open.len() - 2];
            &&& next.finished() == self.finished()
            &&& next.open_nodes() == open.drop_last().update(open.len() - 2, (parent.0, parent.1.push(e)))
        } else {
            &&& next.open_nodes() == Seq::<(L::Kind, Seq<Green<L>>)>::empty()
            &&& next.finished() == self.finished().push(e)
        }
    }

    /// Creates an empty builder.
    pub fn new() -> (r: Self)
        ensures
            r.open_nodes() == Seq::<(L::Kind, Seq<Green<L>>)>::empty(),
            r.finished() == Seq::<Green<L>>::empty(),
            r.wf(),
    {
        let r = Builder { stack: Vec::new(), done: Vec::new() };
        assert(r.open_nodes() =~= Seq::<(L::Kind, Seq<Green<L>>)>::empty());
        r
    }

    /// Starts a new non-token node, completed by the next matching
    /// `finish_node`.
    pub fn start_node(&mut self, kind: L::Kind)
        requires
            old(self).wf(),
        ensures
            final(self).open_nodes() == old(self).open_nodes().push((kind, Seq::<Green<L>>::empty())),
            final(self).finished() == old(self).finished(),
            final(self).wf(),
    {
        let frame = Frame { kind, children: Vec::new() };
        assert(frame.children@ =~= Seq::<Green<L>>::empty());
        self.stack.push(frame);
        assert(self.open_nodes() =~= old(self).open_nodes().push((kind, Seq::<Green<L>>::empty())));
        assert forall|i: int| 0 <= i < self.open_nodes().len() implies all_wf(#[trigger] self.open_nodes()[i].1) by {
            if i < old(self).open_nodes().len() {
                assert(self.open_nodes()[i] == old(self).open_nodes()[i]);
            }
        }
    }

    /// Adds a token to the innermost open node, or to the top level.
    pub fn token(&mut self, kind: L::Kind, width: TextSize, payload: L::Payload)
        requires
            old(self).wf(),
        ensures
            old(self).attached(*final(self), final(self).last_attached()),
            token_green(final(self).last_attached(), kind, width@, payload),
            final(self).wf(),
    {
        self.push_element(Green::token(kind, width, payload))
    }

    /// Finishes the innermost open node and attaches it where it belongs.
    ///
    /// Returns `BuildError::NoOpenNode`, and changes nothing, when no node is
    /// open.
    pub fn finish_node(&mut self) -> (r: Result<(), BuildError>)
        requires
            old(self).wf(),
            old(self).open_nodes().len() > 0 ==> sum_widths(old(self).open_nodes().last().1) <= u32::MAX,
        ensures
            r is Err <==> old(self).open_nodes().len() == 0,
            r is Err ==> r == Err::<(), BuildError>(BuildError::NoOpenNode) && final(self).open_nodes()
                == old(self).open_nodes() && final(self).finished() == old(self).finished(),
            r is Ok ==> old(self).closed_with(*final(self), final(self).last_attached()) && built_from(
                final(self).last_attached(),
                old(self).open_nodes().last().0,
                old(self).open_nodes().last().1,
            ),
            final(self).wf(),
    {
        let frame = match self.stack.pop() {
            Some(frame) => frame,
            None => {
                return Err(BuildError::NoOpenNode);
            },
        };
        let ghost popped = *self;
        proof {
            let open = old(self).open_nodes();
            assert(popped.open_nodes() =~= open.drop_last());
            assert(open.last() == (frame.kind, frame.children@));
            assert(all_wf(open[open.len() - 1].1));
        }
        let node = Green::node(frame.kind, frame.children);
        self.push_element(node);
        proof {
            let open = old(self).open_nodes();
            if open.len() > 1 {
                assert(popped.open_nodes().last() == open[open.len() - 2]);
                assert(popped.open_nodes().len() - 1 == open.len() - 2);
            } else {
                assert(popped.open_nodes().len() == 0);
                assert(self.open_nodes() =~= Seq::<(L::Kind, Seq<Green<L>>)>::empty());
            }
            assert(old(self).closed_with(*self, self.last_attached()));
        }
        Ok(())
    }

    /// Finishes the builder and returns the single root green element.
    ///
    /// Returns `BuildError::UnclosedNode` if any node is still open, and
    /// `BuildError::ExpectedSingleRoot` if the top level does not hold
    /// exactly one element.
    pub fn finish(self) -> (r: Result<Green<L>, BuildError>)
        requires
            self.wf(),
        ensures
            self.open_nodes().len() > 0 ==> r == Err::<Green<L>, BuildError>(BuildError::UnclosedNode),
            self.open_nodes().len() == 0 && self.finished().len() != 1 ==> r == Err::<Green<L>, BuildError>(
                BuildError::ExpectedSingleRoot,
            ),
            self.open_nodes().len() == 0 && self.finished().len() == 1 ==> r == Ok::<Green<L>, BuildError>(
                self.finished()[0],
            ),
            r matches Ok(g) ==> g.wf(),
    {
        if self.stack.len() != 0 {
            assert(self.open_nodes().len() > 0);
            return Err(BuildError::UnclosedNode);
        }
        if self.done.len() != 1 {
            return Err(BuildError::ExpectedSingleRoot);
        }
        let mut done = self.done;
        Ok(done.pop().unwrap())
    }

    fn push_element(&mut self, element: Green<L>)
        requires
            old(self).wf(),
            element.wf(),
        ensures
            old(self).attached(*final(self), element),
            final(self).last_attached() == element,
            final(self).wf(),
    {
        match self.stack.pop() {
            Some(frame) => {
                let mut frame = frame;
                frame.children.push(element);
                self.stack.push(frame);
                proof {
                    let open = old(self).open_nodes();
                    assert(self.open_nodes() =~= open.update(
                        open.len() - 1,
                        (open.last().0, open.last().1.push(element)),
                    ));
                    assert forall|i: int| 0 <= i < self.open_nodes().len() implies all_wf(
                        #[trigger] self.open_nodes()[i].1,
                    ) by {
                        if i < open.len() - 1 {
                            assert(self.open_nodes()[i] == open[i]);
                        } else {
                            assert(all_wf(open[i].1));
                            assert forall|k: int| 0 <= k < self.open_nodes()[i].1.len() implies (
                            #[trigger] self.open_nodes()[i].1[k]).wf() by {
                                if k < open[i].1.len() {
                                    assert(self.open_nodes()[i].1[k] == open[i].1[k]);
                                }
                            }
                        }
                    }
                }
            },
            None => {
                proof {
                    assert(old(self).open_nodes().len() == 0);
                }
                self.done.push(element);
                assert(self.open_nodes() =~= old(self).open_nodes());
            },
        }
    }
}

impl<L: Language> Default for Builder<L> {
    fn default() -> (r: Self)
        ensures
            r.open_nodes() == Seq::<(L::Kind, Seq<Green<L>>)>::empty(),
            r.finished() == Seq::<Green<L>>::empty(),
            r.wf(),
    {
        Self::new()
    }
}

} // verus!
