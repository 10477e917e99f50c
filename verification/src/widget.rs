//! Widgets: the nodes of a user interface.
//!
//! A widget owns an element, which knows its size and how to draw itself,
//! the widgets laid out inside it, and the elements drawn behind it. Every
//! widget holds the rectangle of the last layout, where the pointer was seen
//! inside it, and the signal by which it asks for a new layout.

use vstd::prelude::*;
use crate::geometry::{Layout, Point};
use crate::multi_batch::MultiRenderable;
use crate::signal::{raised, ForceLayoutSignal, SignalTable};
use crate::solver::{auto_size, is_automatic};

verus! {

/// `winit::event::MouseButton`: which button of the pointer.
#[verifier::external_type_specification]
#[verifier::external_body]
pub struct ExMouseButton(winit::event::MouseButton);

/// `winit::event::ElementState`: whether a button went down or up.
#[verifier::external_type_specification]
#[verifier::external_body]
pub struct ExElementState(winit::event::ElementState);

/// Something that has a size and can be drawn; it may react to the pointer.
///
/// The library calls these methods and promises nothing about what an
/// element's own methods return or how they change the element.
pub trait UiElement: Send + Sync {
    /// The size that the element asks for when it is laid out.
    fn get_size(&self) -> stretch::geometry::Size<stretch::style::Dimension>;

    /// What to draw for the element when it has been given `layout`.
    fn generate_render_info(&self, layout: &Layout) -> MultiRenderable;

    /// A button of the pointer went down or up. Returns whether the element
    /// took it. Unless it says otherwise, it takes none and stays as it is.
    fn process_mouse_input(
        &mut self,
        _button: winit::event::MouseButton,
        _state: winit::event::ElementState,
    ) -> (r: bool)
        default_ensures
            !r && &*final(self) == &*old(self),
    {
        false
    }

    /// The pointer came into the widget. `mouse_move` follows at once.
    /// Unless the element says otherwise, it stays as it is.
    fn mouse_enter(&mut self)
        default_ensures
            &*final(self) == &*old(self),
    {
    }

    /// The pointer is at `pos` inside the widget, counted from the
    /// widget's corner. Unless the element says otherwise, it stays as it
    /// is.
    fn mouse_move(&mut self, _pos: Point)
        default_ensures
            &*final(self) == &*old(self),
    {
    }

    /// The pointer went out of the widget. Unless the element says
    /// otherwise, it stays as it is.
    fn mouse_leave(&mut self)
        default_ensures
            &*final(self) == &*old(self),
    {
    }
}

/// The element that asks for no size, draws nothing and takes no event.
impl UiElement for () {
    fn get_size(&self) -> (r: stretch::geometry::Size<stretch::style::Dimension>)
        ensures
            is_automatic(r),
    {
        auto_size()
    }

    fn generate_render_info(&self, _layout: &Layout) -> (r: MultiRenderable)
        ensures
            r is Nothing,
    {
        MultiRenderable::Nothing
    }

    fn process_mouse_input(
        &mut self,
        _button: winit::event::MouseButton,
        _state: winit::event::ElementState,
    ) -> (r: bool)
        ensures
            !r,
    {
        false
    }
}

/// An element with the widgets laid out inside it.
pub struct Widget<E: UiElement>(pub WidgetContents<E>);

/// What a widget holds.
pub struct WidgetContents<E: UiElement> {
    /// What the widget shows.
    pub(crate) element: E,
    /// The widgets laid out inside this one, side by side.
    pub(crate) children: Vec<Widget<E>>,
    /// Elements drawn behind this one, in layers, with the same rectangle.
    pub(crate) backgrounds: Vec<E>,
    /// The rectangle of the last layout; none before the first.
    pub(crate) layout: Option<Layout>,
    /// How the widget is laid out; the element's size takes the place of
    /// the size given here.
    pub(crate) style: stretch::style::Style,
    /// Names the flag of the interface that this widget belongs to.
    pub(crate) force_layout_signal: Option<ForceLayoutSignal>,
    /// Where the pointer is inside this widget, if it is inside.
    pub(crate) hover_position: Option<Point>,
}

/// A widget as a mathematical value.
#[verifier::ext_equal]
pub struct WidgetView<E> {
    pub element: E,
    pub children: Seq<WidgetView<E>>,
    pub backgrounds: Seq<E>,
    pub layout: Option<Layout>,
    pub style: stretch::style::Style,
    pub signal: Option<ForceLayoutSignal>,
    pub hover: Option<Point>,
}

impl<E: UiElement> WidgetContents<E> {
    /// The widget with everything below it.
    pub closed spec fn model(&self) -> WidgetView<E>
        decreases self,
    {
        WidgetView {
            element: self.element,
            children: Seq::new(
                self.children@.len(),
                |i: int|
                    if 0 <= i < self.children@.len() {
                        self.children@[i].0.model()
                    } else {
                        arbitrary()
                    },
            ),
            backgrounds: self.backgrounds@,
            layout: self.layout,
            style: self.style,
            signal: self.force_layout_signal,
            hover: self.hover_position,
        }
    }
}

impl<E: UiElement> View for WidgetContents<E> {
    type V = WidgetView<E>;

    open spec fn view(&self) -> WidgetView<E> {
        self.model()
    }
}

impl<E: UiElement> View for Widget<E> {
    type V = WidgetView<E>;

    open spec fn view(&self) -> WidgetView<E> {
        self.0@
    }
}

/// The widgets that a sequence of widgets stands for.
pub open spec fn views<E: UiElement>(widgets: Seq<Widget<E>>) -> Seq<WidgetView<E>> {
    Seq::new(widgets.len(), |i: int| widgets[i]@)
}

impl<E> WidgetView<E> {
    /// The same tree with `signal` in every widget.
    pub open spec fn with_signal(self, signal: Option<ForceLayoutSignal>) -> WidgetView<E>
        decreases self,
    {
        WidgetView {
            signal,
            children: Seq::new(
                self.children.len(),
                |i: int|
                    if 0 <= i < self.children.len() {
                        self.children[i].with_signal(signal)
                    } else {
                        arbitrary()
                    },
            ),
            ..self
        }
    }

    /// The same widget with `child` as its last child.
    pub open spec fn with_child(self, child: WidgetView<E>) -> WidgetView<E> {
        WidgetView { children: self.children.push(child), ..self }
    }

    /// The same widget without children.
    pub open spec fn childless(self) -> WidgetView<E> {
        WidgetView { children: Seq::empty(), ..self }
    }

    /// How many widgets the tree holds.
    pub open spec fn count(self) -> nat
        decreases self,
    {
        1 + total(self.children)
    }
}

/// How many widgets some trees hold together.
pub open spec fn total<E>(widgets: Seq<WidgetView<E>>) -> nat
    decreases widgets,
{
    if widgets.len() == 0 {
        0
    } else {
        total(widgets.drop_last()) + widgets.last().count()
    }
}

/// The first trees of a sequence hold no more widgets than all of them, and
/// each tree adds its own.
pub proof fn lemma_total_take<E>(widgets: Seq<WidgetView<E>>, upto: int)
    requires
        0 <= upto <= widgets.len(),
    ensures
        total(widgets.take(upto)) <= total(widgets),
        upto < widgets.len() ==> total(widgets.take(upto + 1)) == total(widgets.take(upto))
            + widgets[upto].count(),
    decreases widgets.len(),
{
    if upto < widgets.len() {
        let next = widgets.take(upto + 1);
        assert(next.drop_last() =~= widgets.take(upto));
        assert(next.last() == widgets[upto]);
        if upto + 1 == widgets.len() {
            assert(next =~= widgets);
        } else {
            assert(widgets.drop_last().take(upto) =~= widgets.take(upto));
            lemma_total_take(widgets.drop_last(), upto);
        }
    } else {
        assert(widgets.take(upto) =~= widgets);
    }
}

/// A tree holds more widgets than any of its children.
pub proof fn lemma_child_count<E>(view: WidgetView<E>, at: int)
    requires
        0 <= at < view.children.len(),
    ensures
        view.children[at].count() < view.count(),
{
    lemma_total_take(view.children, at);
    lemma_total_take(view.children, at + 1);
}

impl<E: UiElement> WidgetContents<E> {
    /// The children of the view are the views of the children.
    pub(crate) proof fn lemma_view(&self)
        ensures
            self@.element == self.element,
            self@.children == views(self.children@),
            self@.backgrounds == self.backgrounds@,
            self@.layout == self.layout,
            self@.style == self.style,
            self@.signal == self.force_layout_signal,
            self@.hover == self.hover_position,
    {
        assert(self@.children.len() == self.children@.len());
        assert forall|i: int| 0 <= i < self.children@.len() implies self@.children[i] == views(
            self.children@,
        )[i] by {
        }
        assert(self@.children =~= views(self.children@));
    }

    /// The element.
    pub fn element(&self) -> (r: &E)
        ensures
            *r == self@.element,
    {
        proof {
            self.lemma_view();
        }
        &self.element
    }

    /// The element, to work on. A change that gives the element another
    /// size calls for `force_layout`.
    pub fn element_mut(&mut self) -> (r: &mut E)
        ensures
            *r == old(self)@.element,
            final(self)@ == (WidgetView { element: *final(r), ..old(self)@ }),
    {
        proof {
            old(self).lemma_view();
            final(self).lemma_view();
        }
        &mut self.element
    }

    /// The children, in their order.
    pub fn children(&self) -> (r: &Vec<Widget<E>>)
        ensures
            views(r@) == self@.children,
            r@.len() == self@.children.len(),
    {
        proof {
            self.lemma_view();
        }
        &self.children
    }

    /// The child at `index`, to work on.
    pub fn child_mut(&mut self, index: usize) -> (child: &mut Widget<E>)
        requires
            index < old(self)@.children.len(),
        ensures
            child@ == old(self)@.children[index as int],
            final(self)@ == (WidgetView {
                children: old(self)@.children.update(index as int, final(child)@),
                ..old(self)@
            }),
    {
        proof {
            old(self).lemma_view();
            final(self).lemma_view();
            assert forall|put: Widget<E>| final(self).children@ == #[trigger] old(
                self).children@.update(index as int, put) implies final(self)@.children
                == old(self)@.children.update(index as int, put@) by {
                assert(final(self)@.children =~= old(self)@.children.update(index as int, put@));
            }
        }
        &mut self.children[index]
    }

    /// The elements drawn behind this widget, lowest first.
    pub fn backgrounds(&self) -> (r: &Vec<E>)
        ensures
            r@ == self@.backgrounds,
    {
        proof {
            self.lemma_view();
        }
        &self.backgrounds
    }

    /// The rectangle of the last layout, if there was one.
    pub fn layout(&self) -> (r: Option<Layout>)
        ensures
            r == self@.layout,
    {
        proof {
            self.lemma_view();
        }
        self.layout
    }

    /// Where the pointer is inside this widget, if it is inside.
    pub fn hover_position(&self) -> (r: Option<Point>)
        ensures
            r == self@.hover,
    {
        proof {
            self.lemma_view();
        }
        self.hover_position
    }

    /// The signal by which this widget asks for a new layout, if it
    /// belongs to an interface.
    pub fn force_layout_signal(&self) -> (r: Option<ForceLayoutSignal>)
        ensures
            r == self@.signal,
    {
        proof {
            self.lemma_view();
        }
        self.force_layout_signal
    }

    /// Asks the interface that this widget belongs to for a new layout. If
    /// the widget belongs to none, or the interface has given up its flag,
    /// nothing happens.
    pub fn force_layout(&self, signals: &mut SignalTable)
        ensures
            final(signals)@ == raised(old(signals)@, self@.signal),
    {
        signals.raise(self.force_layout_signal);
    }

    /// Makes `widget` the last child. The widget and everything below it
    /// take over this widget's signal, and a new layout is asked for.
    pub fn add_child(&mut self, widget: Widget<E>, signals: &mut SignalTable)
        ensures
            final(self)@ == old(self)@.with_child(widget@.with_signal(old(self)@.signal)),
            final(signals)@ == raised(old(signals)@, old(self)@.signal),
    {
        let mut widget = widget;
        widget.update_force_layout_signal(self.force_layout_signal);
        self.children.push(widget);
        self.force_layout(signals);
        proof {
            self.lemma_view();
            old(self).lemma_view();
            assert(self@.children =~= old(self)@.children.push(widget@));
        }
    }

    /// Removes all children and asks for a new layout.
    pub fn clear_children(&mut self, signals: &mut SignalTable)
        ensures
            final(self)@ == old(self)@.childless(),
            final(signals)@ == raised(old(signals)@, old(self)@.signal),
    {
        self.children.clear();
        self.force_layout(signals);
        proof {
            self.lemma_view();
            old(self).lemma_view();
            assert(self@.children =~= Seq::<WidgetView<E>>::empty());
        }
    }
}

impl<E: UiElement> Widget<E> {
    /// A widget that belongs to no interface, has no layout and is not
    /// hovered.
    pub fn new(
        element: E,
        children: Vec<Widget<E>>,
        backgrounds: Vec<E>,
        style: stretch::style::Style,
    ) -> (r: Self)
        ensures
            r@ == (WidgetView {
                element,
                children: views(children@),
                backgrounds: backgrounds@,
                layout: None,
                style,
                signal: None,
                hover: None,
            }),
    {
        let r = Widget(
            WidgetContents {
                element,
                children,
                backgrounds,
                layout: None,
                style,
                force_layout_signal: None,
                hover_position: None,
            },
        );
        proof {
            r.0.lemma_view();
        }
        r
    }

    /// Gives `signal` to this widget and to every widget below it.
    pub fn update_force_layout_signal(&mut self, signal: Option<ForceLayoutSignal>)
        ensures
            final(self)@ == old(self)@.with_signal(signal),
        decreases *old(self),
    {
        let n = self.0.children.len();
        let mut i: usize = 0;
        while i < n
            invariant
                n == self.0.children@.len(),
                n == old(self).0.children@.len(),
                i <= n,
                self.0.element == old(self).0.element,
                self.0.backgrounds == old(self).0.backgrounds,
                self.0.layout == old(self).0.layout,
                self.0.style == old(self).0.style,
                self.0.force_layout_signal == old(self).0.force_layout_signal,
                self.0.hover_position == old(self).0.hover_position,
                forall|j: int|
                    0 <= j < i ==> (#[trigger] self.0.children@[j])@ == old(self).0.children@[j]@.with_signal(signal),
                forall|j: int|
                    i <= j < n ==> (#[trigger] self.0.children@[j]) == old(self).0.children@[j],
            decreases n - i,
        {
            self.0.children[i].update_force_layout_signal(signal);
            i = i + 1;
        }
        self.0.force_layout_signal = signal;
        proof {
            self.0.lemma_view();
            old(self).0.lemma_view();
            assert(self@.children =~= old(self)@.with_signal(signal).children);
        }
    }
}

} // verus!
