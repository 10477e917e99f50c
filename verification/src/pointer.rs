//! How the pointer reaches the widgets.
//!
//! A move is shown to every widget of the tree: each one compares the
//! position with its own rectangle, whatever the widgets around it found. A
//! button is offered to a widget's element first and then to its children in
//! their order, and the first element that takes it ends the search.

use vstd::prelude::*;
use crate::geometry::{Layout, Point};
use crate::widget::{lemma_child_count, lemma_total_take, total, UiElement, Widget, WidgetView};

verus! {

/// What a move of the pointer means for one widget.
#[derive(Clone, Copy, Debug, PartialEq, Eq, Structural)]
pub struct HoverChange {
    /// Where the pointer now is inside the widget, if it is inside. The
    /// element is told of every such position.
    pub position: Option<Point>,
    /// The pointer came in: the element is told so before it is told the
    /// position.
    pub entered: bool,
    /// The pointer went out: the element is told so after the children have
    /// seen the move.
    pub left: bool,
}

/// Where `pos` lies inside a widget with the rectangle `layout`. A widget
/// without a layout holds no position.
pub open spec fn hover_at(layout: Option<Layout>, pos: Point) -> Option<Point> {
    match layout {
        Some(layout) => layout.hit(pos),
        None => None,
    }
}

/// What a move to `pos` means for a widget with the rectangle `layout` in
/// which the pointer was last seen at `previous`.
pub open spec fn hover_change_of(
    layout: Option<Layout>,
    previous: Option<Point>,
    pos: Point,
) -> HoverChange {
    let position = hover_at(layout, pos);
    HoverChange {
        position,
        entered: position is Some && previous is None,
        left: position is None && previous is Some,
    }
}

/// A pointer that comes into a rectangle is an entry, with its position; a
/// pointer that stays inside is a position only; a pointer that goes out is
/// a leave; and a pointer that stays outside is nothing at all.
pub proof fn law_hover_transitions(layout: Layout, previous: Option<Point>, pos: Point)
    ensures
        ({
            let change = hover_change_of(Some(layout), previous, pos);
            let inside = layout.holds_local(pos.minus(layout.location));
            &&& inside && previous is None ==> change.entered && !change.left && change.position
                == Some(pos.minus(layout.location))
            &&& inside && previous is Some ==> !change.entered && !change.left
                && change.position == Some(pos.minus(layout.location))
            &&& !inside && previous is Some ==> !change.entered && change.left
                && change.position is None
            &&& !inside && previous is None ==> !change.entered && !change.left
                && change.position is None
        }),
{
}

/// Over two moves in a row, what an element is told follows the pattern
/// of an entry, positions, and a leave. After the first move the widget
/// holds a position exactly if the pointer is inside it. So the second move
/// is an entry only if the first left the pointer outside, a leave only if
/// the first left it inside, and a position without an entry only if the
/// first left it inside.
pub proof fn law_hover_sequence(
    layout: Option<Layout>,
    previous: Option<Point>,
    first: Point,
    second: Point,
)
    ensures
        ({
            let one = hover_change_of(layout, previous, first);
            let two = hover_change_of(layout, one.position, second);
            &&& one.position is Some <==> hover_at(layout, first) is Some
            &&& two.entered ==> one.position is None
            &&& two.left ==> one.position is Some
            &&& two.position is Some && !two.entered ==> one.position is Some
            &&& !(two.entered && two.left)
            &&& two.entered ==> two.position is Some
            &&& two.left ==> two.position is None
        }),
{
}

/// What a move to `pos` means for a widget with the rectangle `layout` in
/// which the pointer was last seen at `previous`.
pub fn hover_change(layout: Option<Layout>, previous: Option<Point>, pos: Point) -> (r:
    HoverChange)
    ensures
        r == hover_change_of(layout, previous, pos),
{
    let position = match layout {
        Some(layout) => layout.local_position(pos),
        None => None,
    };
    HoverChange {
        position,
        entered: position.is_some() && previous.is_none(),
        left: position.is_none() && previous.is_some(),
    }
}

impl<E: UiElement> WidgetView<E> {
    /// The tree after the pointer moved to `pos`: every widget holds where
    /// `pos` lies inside it. The children see the same `pos` as their
    /// parent.
    pub open spec fn hovered(self, pos: Point) -> WidgetView<E>
        decreases self,
    {
        WidgetView {
            hover: hover_at(self.layout, pos),
            children: Seq::new(
                self.children.len(),
                |i: int|
                    if 0 <= i < self.children.len() {
                        self.children[i].hovered(pos)
                    } else {
                        arbitrary()
                    },
            ),
            ..self
        }
    }

    /// What a move to `pos` means for this widget.
    pub open spec fn change_at(self, pos: Point) -> HoverChange {
        hover_change_of(self.layout, self.hover, pos)
    }

    /// Whether two trees differ at most in their elements: they have the
    /// same shape, and each widget has the same backgrounds, layout, style,
    /// signal and hover position as the widget at its place in the other.
    pub open spec fn same_frame(self, other: WidgetView<E>) -> bool
        decreases self,
    {
        &&& self.children.len() == other.children.len()
        &&& forall|i: int|
            0 <= i < self.children.len() ==> self.children[i].same_frame(
                #[trigger] other.children[i],
            )
        &&& self.backgrounds == other.backgrounds
        &&& self.layout == other.layout
        &&& self.style == other.style
        &&& self.signal == other.signal
        &&& self.hover == other.hover
    }
}

impl<E: UiElement> WidgetView<E> {
    /// The widgets of the tree, each one before the widgets below it, the
    /// children in their order. This is the order in which the widgets are
    /// visited.
    pub open spec fn listed(self) -> Seq<WidgetView<E>>
        decreases self,
    {
        seq![self] + listed_all(self.children)
    }

    /// Whether the listing of this tree has the place `at`.
    pub open spec fn has_place(self, at: int) -> bool {
        0 <= at < self.count()
    }

    /// Where the widget that stands at `within` in the listing of the child
    /// at `child` stands in the listing of this tree.
    pub open spec fn place(self, child: int, within: int) -> int {
        1 + total(self.children.take(child)) + within
    }
}

/// The widgets of some trees, one tree after the other.
pub open spec fn listed_all<E: UiElement>(widgets: Seq<WidgetView<E>>) -> Seq<WidgetView<E>>
    decreases widgets,
{
    if widgets.len() == 0 {
        Seq::empty()
    } else {
        listed_all(widgets.drop_last()) + widgets.last().listed()
    }
}

/// A tree lists as many widgets as it holds, itself first.
pub proof fn lemma_listed_len<E: UiElement>(view: WidgetView<E>)
    ensures
        view.listed().len() == view.count(),
        view.listed()[0] == view,
    decreases view,
{
    lemma_listed_all_len(view.children);
}

/// Some trees list as many widgets as they hold together.
pub proof fn lemma_listed_all_len<E: UiElement>(widgets: Seq<WidgetView<E>>)
    ensures
        listed_all(widgets).len() == total(widgets),
    decreases widgets,
{
    if widgets.len() > 0 {
        lemma_listed_all_len(widgets.drop_last());
        lemma_listed_len(widgets.last());
    }
}

/// The listing of some trees holds the listing of each of them, after
/// those of the trees before it.
pub proof fn lemma_listed_all_part<E: UiElement>(
    widgets: Seq<WidgetView<E>>,
    child: int,
    within: int,
)
    requires
        0 <= child < widgets.len(),
        0 <= within < widgets[child].count(),
    ensures
        total(widgets.take(child)) + within < total(widgets),
        listed_all(widgets)[total(widgets.take(child)) + within] == widgets[child].listed()[within],
    decreases widgets.len(),
{
    let rest = widgets.drop_last();
    lemma_listed_all_len(rest);
    lemma_listed_len(widgets.last());
    lemma_total_take(widgets, child);
    lemma_total_take(widgets, child + 1);
    assert(widgets.take(widgets.len() - 1) =~= rest);
    if child < widgets.len() - 1 {
        assert(rest.take(child) =~= widgets.take(child));
        assert(rest.take(child + 1) =~= widgets.take(child + 1));
        lemma_total_take(rest, child + 1);
        lemma_listed_all_part(rest, child, within);
    }
}

/// The listing of a tree holds the listing of each child, at its place.
pub proof fn lemma_listed_child<E: UiElement>(view: WidgetView<E>, child: int, within: int)
    requires
        0 <= child < view.children.len(),
        0 <= within < view.children[child].count(),
    ensures
        1 <= view.place(child, within) < view.count(),
        view.listed()[view.place(child, within)] == view.children[child].listed()[within],
{
    lemma_listed_all_part(view.children, child, within);
    lemma_listed_all_len(view.children);
}

/// Every widget of a tree but the first belongs to one of the children.
pub proof fn lemma_find_place<E: UiElement>(view: WidgetView<E>, at: int) -> (found: (int, int))
    requires
        1 <= at < view.count(),
    ensures
        0 <= found.0 < view.children.len(),
        0 <= found.1 < view.children[found.0].count(),
        view.place(found.0, found.1) == at,
{
    let child = lemma_find_child(view.children, at - 1);
    lemma_total_take(view.children, child);
    (child, at - 1 - total(view.children.take(child)))
}

/// The tree to whose widgets the one at `at` belongs.
pub proof fn lemma_find_child<E: UiElement>(widgets: Seq<WidgetView<E>>, at: int) -> (child: int)
    requires
        0 <= at < total(widgets),
    ensures
        0 <= child < widgets.len(),
        total(widgets.take(child)) <= at < total(widgets.take(child + 1)),
    decreases widgets.len(),
{
    let last = widgets.len() - 1;
    assert(widgets.take(last) =~= widgets.drop_last());
    assert(widgets.take(last + 1) =~= widgets);
    if at >= total(widgets.drop_last()) {
        last
    } else {
        let child = lemma_find_child(widgets.drop_last(), at);
        assert(widgets.drop_last().take(child) =~= widgets.take(child));
        assert(widgets.drop_last().take(child + 1) =~= widgets.take(child + 1));
        child
    }
}

/// Trees with the same frame hold as many widgets.
pub proof fn lemma_frame_count<E: UiElement>(a: WidgetView<E>, b: WidgetView<E>)
    requires
        a.same_frame(b),
    ensures
        a.count() == b.count(),
    decreases a,
{
    lemma_frame_total(a.children, b.children);
}

/// Trees with the same frames, one for one, hold as many widgets together.
pub proof fn lemma_frame_total<E: UiElement>(a: Seq<WidgetView<E>>, b: Seq<WidgetView<E>>)
    requires
        a.len() == b.len(),
        forall|i: int| 0 <= i < a.len() ==> a[i].same_frame(#[trigger] b[i]),
    ensures
        total(a) == total(b),
    decreases a,
{
    if a.len() > 0 {
        assert forall|i: int| 0 <= i < a.drop_last().len() implies a.drop_last()[i].same_frame(
            #[trigger] b.drop_last()[i],
        ) by {
            assert(a[i].same_frame(b[i]));
        }
        lemma_frame_total(a.drop_last(), b.drop_last());
        assert(a.last().same_frame(b[b.len() - 1]));
        lemma_frame_count(a.last(), b.last());
    }
}

/// In trees with the same frame, a widget of a child stands at the same
/// place.
pub proof fn lemma_frame_place<E: UiElement>(
    a: WidgetView<E>,
    b: WidgetView<E>,
    child: int,
    within: int,
)
    requires
        a.same_frame(b),
        0 <= child < a.children.len(),
    ensures
        a.place(child, within) == b.place(child, within),
        a.children[child].count() == b.children[child].count(),
{
    assert forall|i: int| 0 <= i < child implies a.children.take(child)[i].same_frame(
        #[trigger] b.children.take(child)[i],
    ) by {
        assert(a.children[i].same_frame(b.children[i]));
    }
    lemma_frame_total(a.children.take(child), b.children.take(child));
    assert(a.children[child].same_frame(b.children[child]));
    lemma_frame_count(a.children[child], b.children[child]);
}

/// Every tree has its own frame.
pub proof fn lemma_same_frame_reflexive<E: UiElement>(view: WidgetView<E>)
    ensures
        view.same_frame(view),
    decreases view,
{
    assert forall|i: int| 0 <= i < view.children.len() implies view.children[i].same_frame(
        #[trigger] view.children[i],
    ) by {
        lemma_same_frame_reflexive(view.children[i]);
    }
}

/// Whether `element` is a call that tells an element that the pointer came
/// in: the element was `before` when it was told. What it is after the call
/// is the value that the reference will hold.
#[verifier::inline]
pub open spec fn enters<E: UiElement>(element: &mut E, before: E) -> bool {
    mut_ref_current(element) == before && call_ensures(E::mouse_enter, (element,), ())
}

/// Whether `element` is a call that tells an element where the pointer is:
/// the element was `before` when it was told, and the position was `local`.
#[verifier::inline]
pub open spec fn moves<E: UiElement>(element: &mut E, before: E, local: Point) -> bool {
    mut_ref_current(element) == before && call_ensures(E::mouse_move, (element, local), ())
}

/// Whether `element` is a call that tells an element that the pointer went
/// out: the element was `before` when it was told.
#[verifier::inline]
pub open spec fn leaves<E: UiElement>(element: &mut E, before: E) -> bool {
    mut_ref_current(element) == before && call_ensures(E::mouse_leave, (element,), ())
}

/// A tree keeps its shape when the pointer moves.
pub proof fn lemma_hovered_count<E: UiElement>(view: WidgetView<E>, pos: Point)
    ensures
        view.hovered(pos).count() == view.count(),
        view.hovered(pos).children.len() == view.children.len(),
    decreases view,
{
    lemma_hovered_total(view, pos, view.children.len() as int);
    assert(view.children.take(view.children.len() as int) =~= view.children);
    assert(view.hovered(pos).children.take(view.children.len() as int) =~= view.hovered(
        pos,
    ).children);
}

/// The first children of a tree keep their shape when the pointer moves.
pub proof fn lemma_hovered_total<E: UiElement>(view: WidgetView<E>, pos: Point, upto: int)
    requires
        0 <= upto <= view.children.len(),
    ensures
        total(view.hovered(pos).children.take(upto)) == total(view.children.take(upto)),
    decreases view, upto,
{
    if upto > 0 {
        lemma_hovered_total(view, pos, upto - 1);
        lemma_hovered_count(view.children[upto - 1], pos);
        lemma_total_take(view.children, upto - 1);
        lemma_total_take(view.hovered(pos).children, upto - 1);
    } else {
        assert(view.children.take(0) =~= Seq::<WidgetView<E>>::empty());
        assert(view.hovered(pos).children.take(0) =~= Seq::<WidgetView<E>>::empty());
    }
}

/// Whether an element went from `before` to `after` by being told what
/// `change` means, and nothing else:
/// - if the pointer came in, it was told of the entry and then of the
///   position;
/// - if the pointer stayed inside, it was told of the position;
/// - if the pointer went out, it was told so;
/// - otherwise it was told nothing, and is as it was.
///
/// A position is told relative to the corner of the widget. `enter`, `stay`
/// and `leave` are the three calls, and `entered`, `stayed` and `left` are
/// what the element was after each of them; a call that was not made plays
/// no part.
pub open spec fn told<E: UiElement>(
    before: E,
    change: HoverChange,
    after: E,
    enter: &mut E,
    entered: E,
    stay: &mut E,
    stayed: E,
    leave: &mut E,
    left: E,
) -> bool {
    &&& change.entered ==> enters(enter, before) && moves(stay, entered, change.position->0)
        && stayed == after
    &&& !change.entered && change.position is Some ==> moves(stay, before, change.position->0)
        && stayed == after
    &&& change.left ==> leaves(leave, before) && left == after
    &&& !change.entered && change.position is None && !change.left ==> after == before
}

impl<E: UiElement> Widget<E> {
    /// Shows a move of the pointer to this widget and to every widget below
    /// it. `pos` is given in the coordinates of this widget's parent, and
    /// every widget below is shown the same `pos`.
    ///
    /// Afterwards every widget holds where the pointer is inside it, and
    /// every element has been told what the move means for its widget, and
    /// nothing else.
    pub fn process_mouse_move(&mut self, pos: Point)
        ensures
            final(self)@.same_frame(old(self)@.hovered(pos)),
            forall|i: int|
                #![trigger old(self)@.listed()[i]]
                #![trigger old(self)@.has_place(i)]
                old(self)@.has_place(i) ==> exists|enter: &mut E, stay: &mut E, leave: &mut E|
                    told(
                        old(self)@.listed()[i].element,
                        old(self)@.listed()[i].change_at(pos),
                        final(self)@.listed()[i].element,
                        enter,
                        mut_ref_future(enter),
                        stay,
                        mut_ref_future(stay),
                        leave,
                        mut_ref_future(leave),
                    ),
        decreases *old(self),
    {
        let change = hover_change(self.0.layout, self.0.hover_position, pos);
        let ghost before = self.0.element;
        if change.entered {
            self.0.element.mouse_enter();
        }
        let ghost inside = self.0.element;
        let ghost enter: &mut E = if change.entered {
            choose|call: &mut E| enters(call, before) && mut_ref_future(call) == inside
        } else {
            arbitrary()
        };
        if let Some(local) = change.position {
            self.0.element.mouse_move(local);
        }
        let ghost there = self.0.element;
        let ghost stay: &mut E = if change.position is Some {
            choose|call: &mut E|
                moves(call, inside, change.position->0) && mut_ref_future(call) == there
        } else {
            arbitrary()
        };
        proof {
            old(self).0.lemma_view();
        }
        let n = self.0.children.len();
        let mut i: usize = 0;
        while i < n
            invariant
                n == self.0.children@.len(),
                n == old(self).0.children@.len(),
                i <= n,
                self.0.backgrounds == old(self).0.backgrounds,
                self.0.layout == old(self).0.layout,
                self.0.style == old(self).0.style,
                self.0.force_layout_signal == old(self).0.force_layout_signal,
                self.0.hover_position == old(self).0.hover_position,
                self.0.element == there,
                forall|j: int|
                    0 <= j < i ==> (#[trigger] self.0.children@[j])@.same_frame(
                        old(self).0.children@[j]@.hovered(pos),
                    ),
                forall|j: int, k: int|
                    #![trigger old(self).0.children@[j]@.listed()[k]]
                    #![trigger old(self).0.children@[j]@.has_place(k)]
                    0 <= j < i && old(self).0.children@[j]@.has_place(k) ==> exists|enter: &mut E, stay: &mut E, leave: &mut E|
                        told(
                            old(self).0.children@[j]@.listed()[k].element,
                            old(self).0.children@[j]@.listed()[k].change_at(pos),
                            self.0.children@[j]@.listed()[k].element,
                            enter,
                            mut_ref_future(enter),
                            stay,
                            mut_ref_future(stay),
                            leave,
                            mut_ref_future(leave),
                        ),
                forall|j: int|
                    i <= j < n ==> (#[trigger] self.0.children@[j]) == old(self).0.children@[j],
            decreases n - i,
        {
            let ghost child = self.0.children@[i as int]@;
            self.0.children[i].process_mouse_move(pos);
            proof {
                let shown = self.0.children@[i as int]@;
                assert forall|k: int|
                    #![trigger old(self).0.children@[i as int]@.listed()[k]]
                    #![trigger old(self).0.children@[i as int]@.has_place(k)]
                    old(self).0.children@[i as int]@.has_place(k) implies exists|enter: &mut E, stay: &mut E, leave: &mut E|
                        told(
                            old(self).0.children@[i as int]@.listed()[k].element,
                            old(self).0.children@[i as int]@.listed()[k].change_at(pos),
                            shown.listed()[k].element,
                            enter,
                            mut_ref_future(enter),
                            stay,
                            mut_ref_future(stay),
                            leave,
                            mut_ref_future(leave),
                        ) by {
                    let _ = child.listed()[k];
                }
            }
            i = i + 1;
        }
        if change.left {
            self.0.element.mouse_leave();
        }
        let ghost leave: &mut E = if change.left {
            choose|call: &mut E| leaves(call, there) && mut_ref_future(call) == self.0.element
        } else {
            arbitrary()
        };
        self.0.hover_position = change.position;
        proof {
            self.0.lemma_view();
            let was = old(self)@;
            let now = self@;
            let want = was.hovered(pos);
            assert forall|j: int| 0 <= j < n implies now.children[j].same_frame(
                #[trigger] want.children[j],
            ) by {
                assert(now.children[j] == self.0.children@[j]@);
                assert(want.children[j] == old(self).0.children@[j]@.hovered(pos));
            }
            assert(now.same_frame(want));
            lemma_listed_len(was);
            lemma_listed_len(now);
            assert(was.listed()[0].change_at(pos) == change);
            assert(told(
                before,
                change,
                now.element,
                enter,
                mut_ref_future(enter),
                stay,
                mut_ref_future(stay),
                leave,
                mut_ref_future(leave),
            ));
            assert forall|at: int|
                #![trigger was.listed()[at]]
                #![trigger was.has_place(at)]
                was.has_place(at) implies exists|enter: &mut E, stay: &mut E, leave: &mut E|
                    told(
                        was.listed()[at].element,
                        was.listed()[at].change_at(pos),
                        now.listed()[at].element,
                        enter,
                        mut_ref_future(enter),
                        stay,
                        mut_ref_future(stay),
                        leave,
                        mut_ref_future(leave),
                    ) by {
                if at >= 1 {
                    let (j, k) = lemma_find_place(was, at);
                    lemma_listed_child(was, j, k);
                    lemma_frame_place(now, want, j, k);
                    lemma_hovered_total(was, pos, j);
                    lemma_hovered_count(was.children[j], pos);
                    assert(want.children[j] == was.children[j].hovered(pos));
                    lemma_listed_child(now, j, k);
                    assert(now.children[j] == self.0.children@[j]@);
                    assert(was.children[j] == old(self).0.children@[j]@);
                    let before_it = old(self).0.children@[j]@.listed()[k];
                    let after_it = self.0.children@[j]@.listed()[k];
                    let (a, b, c) = choose|a: &mut E, b: &mut E, c: &mut E|
                        told(
                            before_it.element,
                            before_it.change_at(pos),
                            after_it.element,
                            a,
                            mut_ref_future(a),
                            b,
                            mut_ref_future(b),
                            c,
                            mut_ref_future(c),
                        );
                    assert(told(
                        was.listed()[at].element,
                        was.listed()[at].change_at(pos),
                        now.listed()[at].element,
                        a,
                        mut_ref_future(a),
                        b,
                        mut_ref_future(b),
                        c,
                        mut_ref_future(c),
                    ));
                }
            }
        }
    }

    /// Offers a button to the children in their order, until the first one
    /// takes it. Returns which child took it, and up to which place of the
    /// listing the elements were asked.
    fn ask_children(
        &mut self,
        button: winit::event::MouseButton,
        state: winit::event::ElementState,
    ) -> (r: (Option<usize>, Ghost<int>))
        ensures
            final(self)@.same_frame(old(self)@),
            final(self)@.element == old(self)@.element,
            r.0 matches Some(k) ==> k < old(self)@.children.len(),
            old(self)@.children.len() == 0 ==> r.0 is None && *final(self) == *old(self),
            forall|j: int|
                (r.0 matches Some(k) && k < j) && j < old(self)@.children.len() ==> (
                #[trigger] final(self)@.children[j]) == old(self)@.children[j],
            asked_upto(1, r.1@, old(self)@.count(), r.0 is Some),
            forall|i: int|
                #![trigger old(self)@.listed()[i]]
                #![trigger old(self)@.has_place(i)]
                1 <= i && old(self)@.has_place(i) ==> exists|call: &mut E|
                    asked(
                        old(self)@.listed()[i],
                        final(self)@.listed()[i],
                        i,
                        r.1@,
                        button,
                        state,
                        r.0 is Some,
                        call,
                        mut_ref_future(call),
                    ),
        decreases old(self)@.count(), 0int,
    {
        let n = self.0.children.len();
        let mut i: usize = 0;
        let mut taker: Option<usize> = None;
        let ghost mut last: int = 0;
        proof {
            old(self).0.lemma_view();
        }
        while i < n && taker.is_none()
            invariant
                n == self.0.children@.len(),
                n == old(self).0.children@.len(),
                i <= n,
                self.0.element == old(self).0.element,
                self.0.backgrounds == old(self).0.backgrounds,
                self.0.layout == old(self).0.layout,
                self.0.style == old(self).0.style,
                self.0.force_layout_signal == old(self).0.force_layout_signal,
                self.0.hover_position == old(self).0.hover_position,
                old(self)@.children == crate::widget::views(old(self).0.children@),
                taker matches Some(k) ==> k + 1 == i,
                i == 0 ==> *self == *old(self),
                forall|j: int|
                    0 <= j < i ==> (#[trigger] self.0.children@[j])@.same_frame(
                        old(self).0.children@[j]@,
                    ),
                forall|j: int|
                    i <= j < n ==> (#[trigger] self.0.children@[j]) == old(self).0.children@[j],
                forall|j: int, k: int|
                    #![trigger old(self).0.children@[j]@.listed()[k]]
                    #![trigger old(self).0.children@[j]@.has_place(k)]
                    0 <= j < i && taker != Some(j as usize) && old(self).0.children@[j]@.has_place(
                        k,
                    ) ==> exists|call: &mut E|
                        asked(
                            old(self).0.children@[j]@.listed()[k],
                            self.0.children@[j]@.listed()[k],
                            k,
                            old(self).0.children@[j]@.count() as int,
                            button,
                            state,
                            false,
                            call,
                            mut_ref_future(call),
                        ),
                taker matches Some(t) ==> asked_upto(
                    0,
                    last,
                    old(self).0.children@[t as int]@.count(),
                    true,
                ),
                forall|k: int|
                    #![trigger old(self).0.children@[i - 1]@.listed()[k]]
                    #![trigger old(self).0.children@[i - 1]@.has_place(k)]
                    taker is Some && old(self).0.children@[i - 1]@.has_place(k) ==> exists|
                        call: &mut E,
                    |
                        asked(
                            old(self).0.children@[i - 1]@.listed()[k],
                            self.0.children@[i - 1]@.listed()[k],
                            k,
                            last,
                            button,
                            state,
                            true,
                            call,
                            mut_ref_future(call),
                        ),
            decreases n - i,
        {
            proof {
                lemma_child_count(old(self)@, i as int);
            }
            let ghost child = self.0.children@[i as int]@;
            let ghost prev = *self;
            let answer = self.0.children[i].ask(button, state);
            if answer.0 {
                taker = Some(i);
                proof {
                    last = answer.1@;
                }
            }
            proof {
                let shown = self.0.children@[i as int]@;
                assert(child == old(self).0.children@[i as int]@);
                if answer.0 {
                    assert forall|k: int|
                        #![trigger old(self).0.children@[i as int]@.listed()[k]]
                        #![trigger old(self).0.children@[i as int]@.has_place(k)]
                        old(self).0.children@[i as int]@.has_place(k) implies exists|
                        call: &mut E,
                    |
                        asked(
                            old(self).0.children@[i as int]@.listed()[k],
                            shown.listed()[k],
                            k,
                            last,
                            button,
                            state,
                            true,
                            call,
                            mut_ref_future(call),
                        ) by {
                        assert(child.has_place(k));
                        let call = choose|call: &mut E|
                            asked(
                                child.listed()[k],
                                shown.listed()[k],
                                k,
                                answer.1@,
                                button,
                                state,
                                answer.0,
                                call,
                                mut_ref_future(call),
                            );
                        assert(asked(
                            old(self).0.children@[i as int]@.listed()[k],
                            shown.listed()[k],
                            k,
                            last,
                            button,
                            state,
                            true,
                            call,
                            mut_ref_future(call),
                        ));
                    }
                } else {
                    assert forall|k: int|
                        #![trigger old(self).0.children@[i as int]@.listed()[k]]
                        #![trigger old(self).0.children@[i as int]@.has_place(k)]
                        old(self).0.children@[i as int]@.has_place(k) implies exists|
                        call: &mut E,
                    |
                        asked(
                            old(self).0.children@[i as int]@.listed()[k],
                            shown.listed()[k],
                            k,
                            old(self).0.children@[i as int]@.count() as int,
                            button,
                            state,
                            false,
                            call,
                            mut_ref_future(call),
                        ) by {
                        assert(child.has_place(k));
                        let call = choose|call: &mut E|
                            asked(
                                child.listed()[k],
                                shown.listed()[k],
                                k,
                                answer.1@,
                                button,
                                state,
                                answer.0,
                                call,
                                mut_ref_future(call),
                            );
                        assert(asked(
                            old(self).0.children@[i as int]@.listed()[k],
                            shown.listed()[k],
                            k,
                            old(self).0.children@[i as int]@.count() as int,
                            button,
                            state,
                            false,
                            call,
                            mut_ref_future(call),
                        ));
                    }
                }
            }
            proof {
                assert forall|j: int, k: int|
                    #![trigger old(self).0.children@[j]@.listed()[k]]
                    #![trigger old(self).0.children@[j]@.has_place(k)]
                    0 <= j <= i && taker != Some(j as usize) && old(self).0.children@[j]@.has_place(
                        k,
                    ) implies exists|call: &mut E|
                    asked(
                        old(self).0.children@[j]@.listed()[k],
                        self.0.children@[j]@.listed()[k],
                        k,
                        old(self).0.children@[j]@.count() as int,
                        button,
                        state,
                        false,
                        call,
                        mut_ref_future(call),
                    ) by {
                    if j < i {
                        assert(self.0.children@[j] == prev.0.children@[j]);
                        let call = choose|call: &mut E|
                            asked(
                                old(self).0.children@[j]@.listed()[k],
                                prev.0.children@[j]@.listed()[k],
                                k,
                                old(self).0.children@[j]@.count() as int,
                                button,
                                state,
                                false,
                                call,
                                mut_ref_future(call),
                            );
                        assert(asked(
                            old(self).0.children@[j]@.listed()[k],
                            self.0.children@[j]@.listed()[k],
                            k,
                            old(self).0.children@[j]@.count() as int,
                            button,
                            state,
                            false,
                            call,
                            mut_ref_future(call),
                        ));
                    } else {
                        let call = choose|call: &mut E|
                            asked(
                                old(self).0.children@[i as int]@.listed()[k],
                                self.0.children@[i as int]@.listed()[k],
                                k,
                                old(self).0.children@[i as int]@.count() as int,
                                button,
                                state,
                                false,
                                call,
                                mut_ref_future(call),
                            );
                        assert(asked(
                            old(self).0.children@[j]@.listed()[k],
                            self.0.children@[j]@.listed()[k],
                            k,
                            old(self).0.children@[j]@.count() as int,
                            button,
                            state,
                            false,
                            call,
                            mut_ref_future(call),
                        ));
                    }
                }
            }
            i = i + 1;
        }
        let ghost upto: int = if taker is Some {
            old(self)@.place(i - 1, last - 1) + 1
        } else {
            old(self)@.count() as int
        };
        proof {
            self.0.lemma_view();
            let was = old(self)@;
            let now = self@;
            assert forall|j: int| 0 <= j < n implies now.children[j].same_frame(
                #[trigger] was.children[j],
            ) by {
                assert(now.children[j] == self.0.children@[j]@);
                assert(was.children[j] == old(self).0.children@[j]@);
                if j >= i {
                    lemma_same_frame_reflexive(was.children[j]);
                }
            }
            assert(now.same_frame(was));
            lemma_frame_count(now, was);
            lemma_listed_len(was);
            lemma_listed_len(now);
            if taker is Some {
                lemma_listed_child(was, i - 1, last - 1);
            }
            assert forall|at: int|
                #![trigger was.listed()[at]]
                #![trigger was.has_place(at)]
                1 <= at && was.has_place(at) implies exists|call: &mut E|
                asked(
                    was.listed()[at],
                    now.listed()[at],
                    at,
                    upto,
                    button,
                    state,
                    taker is Some,
                    call,
                    mut_ref_future(call),
                ) by {
                let (j, k) = lemma_find_place(was, at);
                lemma_listed_child(was, j, k);
                lemma_frame_place(now, was, j, k);
                lemma_listed_child(now, j, k);
                assert(now.children[j] == self.0.children@[j]@);
                assert(was.children[j] == old(self).0.children@[j]@);
                if taker is Some {
                    lemma_place_order(was, j, k, i - 1, last - 1);
                    lemma_place_order(was, i - 1, last - 1, j, k);
                }
                let before_it = old(self).0.children@[j]@;
                let after_it = self.0.children@[j]@;
                assert(before_it.has_place(k));
                let call: &mut E = if j >= i {
                    arbitrary()
                } else if taker == Some(j as usize) {
                    choose|call: &mut E|
                        asked(
                            before_it.listed()[k],
                            after_it.listed()[k],
                            k,
                            last,
                            button,
                            state,
                            true,
                            call,
                            mut_ref_future(call),
                        )
                } else {
                    choose|call: &mut E|
                        asked(
                            before_it.listed()[k],
                            after_it.listed()[k],
                            k,
                            before_it.count() as int,
                            button,
                            state,
                            false,
                            call,
                            mut_ref_future(call),
                        )
                };
                assert(asked(
                    was.listed()[at],
                    now.listed()[at],
                    at,
                    upto,
                    button,
                    state,
                    taker is Some,
                    call,
                    mut_ref_future(call),
                ));
            }
        }
        (taker, Ghost(upto))
    }

    /// Offers a button to this widget's element and then, if the element
    /// does not take it, to the widgets below. Returns whether an element
    /// took it, and up to which place of the listing the elements were
    /// asked.
    fn ask(
        &mut self,
        button: winit::event::MouseButton,
        state: winit::event::ElementState,
    ) -> (r: (bool, Ghost<int>))
        ensures
            final(self)@.same_frame(old(self)@),
            asked_upto(0, r.1@, old(self)@.count(), r.0),
            forall|i: int|
                #![trigger old(self)@.listed()[i]]
                #![trigger old(self)@.has_place(i)]
                old(self)@.has_place(i) ==> exists|call: &mut E|
                    asked(
                        old(self)@.listed()[i],
                        final(self)@.listed()[i],
                        i,
                        r.1@,
                        button,
                        state,
                        r.0,
                        call,
                        mut_ref_future(call),
                    ),
        decreases old(self)@.count(), 1int,
    {
        let consumed = self.0.element.process_mouse_input(button, state);
        let ghost mid = *self;
        let ghost own: &mut E = choose|element: &mut E|
            asks(element, old(self).0.element, button, state, consumed) && mut_ref_future(element)
                == mid.0.element;
        proof {
            mid.0.lemma_view();
            old(self).0.lemma_view();
            lemma_listed_len(old(self)@);
            lemma_listed_len(mid@);
            assert(mid@.children == old(self)@.children);
            assert forall|i: int| 1 <= i < mid@.count() implies #[trigger] mid@.listed()[i]
                == old(self)@.listed()[i] by {}
        }
        if consumed {
            proof {
                lemma_same_frame_reflexive(mid@);
                lemma_same_frame_between(old(self)@, mid@, self@);
                assert forall|at: int|
                    #![trigger old(self)@.listed()[at]]
                    #![trigger old(self)@.has_place(at)]
                    old(self)@.has_place(at) implies exists|call: &mut E|
                    asked(
                        old(self)@.listed()[at],
                        self@.listed()[at],
                        at,
                        1,
                        button,
                        state,
                        true,
                        call,
                        mut_ref_future(call),
                    ) by {
                    let call: &mut E = if at == 0 {
                        own
                    } else {
                        arbitrary()
                    };
                    assert(asked(
                        old(self)@.listed()[at],
                        self@.listed()[at],
                        at,
                        1,
                        button,
                        state,
                        true,
                        call,
                        mut_ref_future(call),
                    ));
                }
            }
            (true, Ghost(1))
        } else {
            let below = self.ask_children(button, state);
            proof {
                lemma_same_frame_between(old(self)@, mid@, self@);
                lemma_listed_len(self@);
                assert(self@.listed()[0].element == mid@.listed()[0].element);
                assert forall|at: int|
                    #![trigger old(self)@.listed()[at]]
                    #![trigger old(self)@.has_place(at)]
                    old(self)@.has_place(at) implies exists|call: &mut E|
                    asked(
                        old(self)@.listed()[at],
                        self@.listed()[at],
                        at,
                        below.1@,
                        button,
                        state,
                        below.0 is Some,
                        call,
                        mut_ref_future(call),
                    ) by {
                    let call: &mut E = if at == 0 {
                        own
                    } else {
                        let _ = mid@.listed()[at];
                        choose|call: &mut E|
                            asked(
                                mid@.listed()[at],
                                self@.listed()[at],
                                at,
                                below.1@,
                                button,
                                state,
                                below.0 is Some,
                                call,
                                mut_ref_future(call),
                            )
                    };
                    assert(asked(
                        old(self)@.listed()[at],
                        self@.listed()[at],
                        at,
                        below.1@,
                        button,
                        state,
                        below.0 is Some,
                        call,
                        mut_ref_future(call),
                    ));
                }
            }
            (below.0.is_some(), below.1)
        }
    }

    /// Offers a button to the children in their order, until the first one
    /// takes it. Returns which child took it; the children after that one
    /// are not asked. The elements are asked in the order of the listing,
    /// from the first child's on: each one asked before the last declined,
    /// and the last one asked took the button if a child is returned.
    pub fn offer_to_children(
        &mut self,
        button: winit::event::MouseButton,
        state: winit::event::ElementState,
    ) -> (taker: Option<usize>)
        ensures
            final(self)@.same_frame(old(self)@),
            final(self)@.element == old(self)@.element,
            taker matches Some(k) ==> k < old(self)@.children.len(),
            old(self)@.children.len() == 0 ==> taker is None && *final(self) == *old(self),
            forall|j: int|
                (taker matches Some(k) && k < j) && j < old(self)@.children.len() ==> (
                #[trigger] final(self)@.children[j]) == old(self)@.children[j],
            exists|upto: int|
                #![trigger asked_upto(1, upto, old(self)@.count(), taker is Some)]
                asked_upto(1, upto, old(self)@.count(), taker is Some) && forall|i: int|
                    #![trigger old(self)@.listed()[i]]
                    #![trigger old(self)@.has_place(i)]
                    1 <= i && old(self)@.has_place(i) ==> exists|call: &mut E|
                        asked(
                            old(self)@.listed()[i],
                            final(self)@.listed()[i],
                            i,
                            upto,
                            button,
                            state,
                            taker is Some,
                            call,
                            mut_ref_future(call),
                        ),
    {
        let r = self.ask_children(button, state);
        assert(asked_upto(1, r.1@, old(self)@.count(), r.0 is Some));
        r.0
    }

    /// What becomes of a button once this widget's own element has
    /// answered. If the element took it, the answer is `true` and no widget
    /// below is asked: the tree stays as it is. Otherwise the children are
    /// asked in their order, and the answer is whether one of them took it.
    pub fn settle_mouse_input(
        &mut self,
        consumed: bool,
        button: winit::event::MouseButton,
        state: winit::event::ElementState,
    ) -> (r: bool)
        ensures
            consumed ==> r && *final(self) == *old(self),
            !consumed && old(self)@.children.len() == 0 ==> !r && *final(self) == *old(self),
            final(self)@.same_frame(old(self)@),
            final(self)@.element == old(self)@.element,
            !consumed ==> exists|upto: int|
                #![trigger asked_upto(1, upto, old(self)@.count(), r)]
                asked_upto(1, upto, old(self)@.count(), r) && forall|i: int|
                    #![trigger old(self)@.listed()[i]]
                    #![trigger old(self)@.has_place(i)]
                    1 <= i && old(self)@.has_place(i) ==> exists|call: &mut E|
                        asked(
                            old(self)@.listed()[i],
                            final(self)@.listed()[i],
                            i,
                            upto,
                            button,
                            state,
                            r,
                            call,
                            mut_ref_future(call),
                        ),
    {
        if consumed {
            proof {
                lemma_same_frame_reflexive(self@);
            }
            true
        } else {
            let below = self.ask_children(button, state);
            assert(asked_upto(1, below.1@, old(self)@.count(), below.0 is Some));
            below.0.is_some()
        }
    }

    /// Offers a button to this widget's element and then, if the element
    /// does not take it, to the widgets below, children in their order.
    /// Returns whether an element took it.
    ///
    /// The elements are asked in the order of the listing, each with the
    /// button and the state as they came. Every element asked before the
    /// last declined. If the answer is `true`, the last one asked took the
    /// button, and no element after it was asked. If the answer is `false`,
    /// every element of the tree was asked.
    pub fn process_mouse_input(
        &mut self,
        button: winit::event::MouseButton,
        state: winit::event::ElementState,
    ) -> (r: bool)
        ensures
            final(self)@.same_frame(old(self)@),
            exists|upto: int|
                #![trigger asked_upto(0, upto, old(self)@.count(), r)]
                asked_upto(0, upto, old(self)@.count(), r) && forall|i: int|
                    #![trigger old(self)@.listed()[i]]
                    #![trigger old(self)@.has_place(i)]
                    old(self)@.has_place(i) ==> exists|call: &mut E|
                        asked(
                            old(self)@.listed()[i],
                            final(self)@.listed()[i],
                            i,
                            upto,
                            button,
                            state,
                            r,
                            call,
                            mut_ref_future(call),
                        ),
    {
        let r = self.ask(button, state);
        assert(asked_upto(0, r.1@, old(self)@.count(), r.0));
        r.0
    }
}

/// Whether `element` is a call of an element's button handler: the element
/// was `before` when it was asked, with `button` and `state`, and its
/// answer was `answer`. What the element is after the call is the value
/// that the reference will hold.
#[verifier::inline]
pub open spec fn asks<E: UiElement>(
    element: &mut E,
    before: E,
    button: winit::event::MouseButton,
    state: winit::event::ElementState,
    answer: bool,
) -> bool {
    mut_ref_current(element) == before && call_ensures(
        E::process_mouse_input,
        (element, button, state),
        answer,
    )
}

/// Whether the elements of a tree of `count` widgets can have been asked
/// from the place `from` of its listing up to the place `upto`, with the
/// answer `taken`: if one took the button, at least one was asked; if none
/// did, all of them were.
pub open spec fn asked_upto(from: int, upto: int, count: nat, taken: bool) -> bool {
    from <= upto <= count && (taken ==> from < upto) && (!taken ==> upto == count)
}

/// What became of the widget at the place `at` of the listing when a
/// button was offered to the elements before the place `upto`, in their
/// order, and `taken` says whether one of them took it.
///
/// Before `upto` the widget's element was asked, with the button and the
/// state as they came: `call` is that call, and `became` what the element
/// was after it. Its answer was `true` exactly if it was the last one asked
/// and the button was taken: every element asked before the last declined.
/// From `upto` on the element was not asked, and is as it was.
pub open spec fn asked<E: UiElement>(
    before: WidgetView<E>,
    after: WidgetView<E>,
    at: int,
    upto: int,
    button: winit::event::MouseButton,
    state: winit::event::ElementState,
    taken: bool,
    call: &mut E,
    became: E,
) -> bool {
    if at < upto {
        asks(call, before.element, button, state, taken && at == upto - 1) && became
            == after.element
    } else {
        after.element == before.element
    }
}

/// A widget of an earlier child stands before every widget of a later
/// child, and within one child the order is kept.
pub proof fn lemma_place_order<E: UiElement>(
    view: WidgetView<E>,
    child: int,
    within: int,
    other: int,
    other_within: int,
)
    requires
        0 <= child < view.children.len(),
        0 <= within < view.children[child].count(),
        0 <= other < view.children.len(),
        0 <= other_within,
    ensures
        child < other ==> view.place(child, within) < view.place(other, other_within),
        child == other ==> view.place(child, within) - view.place(other, other_within) == within
            - other_within,
{
    if child < other {
        lemma_total_take(view.children, child);
        assert(view.children.take(other).take(child + 1) =~= view.children.take(child + 1));
        lemma_total_take(view.children.take(other), child + 1);
    }
}

/// Trees that have the same frame as a third one have the same frame.
pub proof fn lemma_same_frame_between<E: UiElement>(
    a: WidgetView<E>,
    b: WidgetView<E>,
    c: WidgetView<E>,
)
    requires
        b.children == a.children,
        b.backgrounds == a.backgrounds,
        b.layout == a.layout,
        b.style == a.style,
        b.signal == a.signal,
        b.hover == a.hover,
        c.same_frame(b),
    ensures
        c.same_frame(a),
{
    assert forall|i: int| 0 <= i < c.children.len() implies c.children[i].same_frame(
        #[trigger] a.children[i],
    ) by {
        assert(c.children[i].same_frame(b.children[i]));
    }
}

} // verus!
