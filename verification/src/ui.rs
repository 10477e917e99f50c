//! A whole user interface: a tree of widgets, the size that it fills, and
//! the flag by which its widgets ask for a new layout.

use vstd::prelude::*;
use crate::geometry::{Layout, Point};
use crate::layout::{solution, solve, WidgetStyle};
use crate::multi_batch::{MultiRenderable, TextureRef};
use crate::signal::{is_up, lowered, raised, released, Flag, ForceLayoutSignal, SignalTable};
use crate::solver::{LayoutError, NODE_LIMIT};
use crate::pointer::{asked, asked_upto, told};
use crate::widget::{UiElement, Widget, WidgetView};

verus! {

/// A user interface.
pub struct UI<E: UiElement> {
    pub(crate) root: Widget<E>,
    pub(crate) size: stretch::geometry::Size<stretch::number::Number>,
    /// Names this interface's flag. While the flag is up, the layout is out
    /// of date.
    pub(crate) force_layout: ForceLayoutSignal,
    pub(crate) mouse_position: Point,
}

/// A user interface as a mathematical value.
pub struct UiView<E> {
    pub root: WidgetView<E>,
    pub size: stretch::geometry::Size<stretch::number::Number>,
    pub signal: ForceLayoutSignal,
    pub mouse_position: Point,
}

impl<E: UiElement> View for UI<E> {
    type V = UiView<E>;

    closed spec fn view(&self) -> UiView<E> {
        UiView {
            root: self.root@,
            size: self.size,
            signal: self.force_layout,
            mouse_position: self.mouse_position,
        }
    }
}

/// Whether `after` is `before` after one layout pass: the solver was told
/// the tree's shape and styles, with the size that each element asks for,
/// and the size that the interface fills; every widget has the rectangle
/// that the solver found for its node; nothing else has changed.
pub open spec fn laid_out_anew<E: UiElement>(before: UiView<E>, after: UiView<E>) -> bool {
    exists|styles: WidgetStyle, layouts: Seq<Layout>|
        #![trigger solution(styles, before.size, layouts)]
        styles.describes(before.root) && solution(styles, before.size, layouts) && layouts.len()
            == before.root.count() && after == (UiView {
            root: before.root.laid_out(layouts),
            ..before
        })
}

/// Whether `after` is `before` with its layout brought up to date: if the
/// flag of `before` is up in `flags`, the tree was laid out anew; if not,
/// nothing has changed.
pub open spec fn up_to_date<E: UiElement>(
    before: UiView<E>,
    flags: Seq<Flag>,
    after: UiView<E>,
) -> bool {
    if is_up(flags, before.signal) {
        laid_out_anew(before, after)
    } else {
        after == before
    }
}

/// Whether `after` is `before` once the pointer has moved to `pos`: the
/// position is kept, every widget holds where the pointer is inside it,
/// and nothing else differs but the elements.
pub open spec fn pointed<E: UiElement>(before: UiView<E>, pos: Point, after: UiView<E>) -> bool {
    &&& after.root.same_frame(before.root.hovered(pos))
    &&& after.mouse_position == pos
    &&& after.size == before.size
    &&& after.signal == before.signal
}

impl<E: UiElement> UI<E> {
    /// An interface around `root`. It registers a flag, which is up, so
    /// that the first use makes a layout, and gives the flag's name to
    /// every widget of the tree.
    pub fn new(
        root: Widget<E>,
        size: stretch::geometry::Size<stretch::number::Number>,
        signals: &mut SignalTable,
    ) -> (r: Self)
        ensures
            r@.signal.slot == old(signals)@.len(),
            r@.root == root@.with_signal(Some(r@.signal)),
            r@.size == size,
            r@.mouse_position == (Point { x: 0, y: 0 }),
            final(signals)@ == old(signals)@.push(Flag { live: true, raised: true, signals: 0 }),
    {
        let force_layout = signals.register();
        let mut root = root;
        root.update_force_layout_signal(Some(force_layout));
        Self { root, size, force_layout, mouse_position: Point { x: 0, y: 0 } }
    }

    /// The widget at the top of the tree.
    pub fn root(&self) -> (r: &Widget<E>)
        ensures
            r@ == self@.root,
    {
        &self.root
    }

    /// The widget at the top of the tree, to work on.
    pub fn root_mut(&mut self) -> (r: &mut Widget<E>)
        ensures
            r@ == old(self)@.root,
            final(self)@ == (UiView { root: final(r)@, ..old(self)@ }),
    {
        &mut self.root
    }

    /// The name of this interface's flag.
    pub fn signal(&self) -> (r: ForceLayoutSignal)
        ensures
            r == self@.signal,
    {
        self.force_layout
    }

    /// Where the pointer was last seen.
    pub fn mouse_position(&self) -> (r: Point)
        ensures
            r == self@.mouse_position,
    {
        self.mouse_position
    }

    /// Gives the interface another size to fill and asks for a new layout.
    pub fn update_size(
        &mut self,
        size: stretch::geometry::Size<stretch::number::Number>,
        signals: &mut SignalTable,
    )
        ensures
            final(self)@ == (UiView { size, ..old(self)@ }),
            final(signals)@ == raised(old(signals)@, Some(old(self)@.signal)),
    {
        self.size = size;
        signals.raise(Some(self.force_layout));
    }

    /// Lays the whole tree out anew. A tree with more widgets than the
    /// solver can number is refused as too large, and nothing changes; any
    /// other tree is laid out.
    pub(crate) fn layout(&mut self) -> (r: Result<(), LayoutError>)
        ensures
            r is Err <==> old(self)@.root.count() > NODE_LIMIT,
            r matches Err(error) ==> error == LayoutError::TooManyNodes && *final(self) == *old(
                self,
            ),
            r is Ok ==> laid_out_anew(old(self)@, final(self)@),
    {
        let styles = self.root.generate_styles();
        proof {
            styles.lemma_describes_count(self.root@);
        }
        match solve(&styles, self.size) {
            Ok(layouts) => {
                let next = self.root.apply_layouts(&layouts, 0);
                proof {
                    assert(layouts@.subrange(0, next as int) =~= layouts@);
                    assert(layouts@.len() == old(self)@.root.count());
                    assert(solution(styles, old(self)@.size, layouts@));
                }
                Ok(())
            },
            Err(error) => Err(error),
        }
    }

    /// Brings the layout up to date: where a new layout was asked for, the
    /// whole tree is laid out anew and the flag is taken down. Where none
    /// was asked for, nothing changes. A tree that is too large for the
    /// solver is refused when a layout is due: nothing changes, and the
    /// flag stays up. Nothing else is refused.
    pub fn resolve_layout(&mut self, signals: &mut SignalTable) -> (r: Result<(), LayoutError>)
        ensures
            !is_up(old(signals)@, old(self)@.signal) ==> r is Ok,
            r is Ok ==> up_to_date(old(self)@, old(signals)@, final(self)@),
            r is Ok ==> final(signals)@ == lowered(old(signals)@, old(self)@.signal),
            r is Err ==> *final(self) == *old(self) && final(signals)@ == old(signals)@,
            r is Err <==> too_large(old(self)@, old(signals)@),
            r matches Err(error) ==> error == LayoutError::TooManyNodes,
    {
        if signals.is_raised(self.force_layout) {
            match self.layout() {
                Ok(()) => {
                    signals.lower(self.force_layout);
                    Ok(())
                },
                Err(error) => Err(error),
            }
        } else {
            assert(lowered(signals@, self.force_layout) =~= signals@);
            Ok(())
        }
    }

    /// What the interface draws, with every rectangle moved by `offset`.
    /// The layout is brought up to date first. With a texture in
    /// `debug_line_texture`, every widget's rectangle is outlined.
    pub fn generate_render_info(
        &mut self,
        offset: Point,
        debug_line_texture: Option<TextureRef>,
        signals: &mut SignalTable,
    ) -> (r: Result<MultiRenderable, LayoutError>)
        ensures
            !is_up(old(signals)@, old(self)@.signal) ==> r is Ok,
            r is Ok ==> up_to_date(old(self)@, old(signals)@, final(self)@),
            r is Ok ==> final(signals)@ == lowered(old(signals)@, old(self)@.signal),
            r matches Ok(tree) ==> final(self)@.root.renders(offset, debug_line_texture, tree@),
            r is Err ==> *final(self) == *old(self) && final(signals)@ == old(signals)@,
            r is Err <==> too_large(old(self)@, old(signals)@),
            r matches Err(error) ==> error == LayoutError::TooManyNodes,
    {
        match self.resolve_layout(signals) {
            Ok(()) => Ok(self.root.generate_render_info(offset, debug_line_texture)),
            Err(error) => Err(error),
        }
    }

    /// The pointer moved to `pos`, given in the interface's coordinates.
    /// The layout is brought up to date first; then every widget learns
    /// where the pointer is inside it, and every element is told what the
    /// move means for its widget, and nothing else: the entry and then the
    /// position, the position alone, the leave, or nothing.
    pub fn mouse_move(&mut self, pos: Point, signals: &mut SignalTable) -> (r: Result<
        (),
        LayoutError,
    >)
        ensures
            r is Err <==> too_large(old(self)@, old(signals)@),
            r matches Err(error) ==> error == LayoutError::TooManyNodes,
            r is Ok ==> exists|ready: UiView<E>|
                {
                    &&& #[trigger] up_to_date(old(self)@, old(signals)@, ready)
                    &&& pointed(ready, pos, final(self)@)
                    &&& forall|i: int|
                        #![trigger ready.root.listed()[i]]
                        #![trigger ready.root.has_place(i)]
                        ready.root.has_place(i) ==> exists|enter: &mut E, stay: &mut E, leave: &mut E|
                            told(
                                ready.root.listed()[i].element,
                                ready.root.listed()[i].change_at(pos),
                                final(self)@.root.listed()[i].element,
                                enter,
                                mut_ref_future(enter),
                                stay,
                                mut_ref_future(stay),
                                leave,
                                mut_ref_future(leave),
                            )
                },
            r is Ok ==> final(signals)@ == lowered(old(signals)@, old(self)@.signal),
            r is Err ==> *final(self) == *old(self) && final(signals)@ == old(signals)@,
    {
        match self.resolve_layout(signals) {
            Ok(()) => {
                let ghost ready = self@;
                self.mouse_position = pos;
                self.root.process_mouse_move(pos);
                assert(pointed(ready, pos, self@));
                Ok(())
            },
            Err(error) => Err(error),
        }
    }

    /// A button of the pointer went down or up. It is offered to the root
    /// and then down the tree, until an element takes it. Returns whether
    /// one did.
    ///
    /// The elements are asked in the order of the listing, each with the
    /// button and the state as they came. Every element asked before the
    /// last declined. If the answer is `true`, the last one asked took the
    /// button, and no element after it was asked. If the answer is `false`,
    /// every element of the tree was asked.
    pub fn mouse_input(
        &mut self,
        button: winit::event::MouseButton,
        state: winit::event::ElementState,
    ) -> (r: bool)
        ensures
            final(self)@.root.same_frame(old(self)@.root),
            final(self)@.size == old(self)@.size,
            final(self)@.signal == old(self)@.signal,
            final(self)@.mouse_position == old(self)@.mouse_position,
            exists|upto: int|
                #![trigger asked_upto(0, upto, old(self)@.root.count(), r)]
                asked_upto(0, upto, old(self)@.root.count(), r) && forall|i: int|
                    #![trigger old(self)@.root.listed()[i]]
                    #![trigger old(self)@.root.has_place(i)]
                    old(self)@.root.has_place(i) ==> exists|call: &mut E|
                        asked(
                            old(self)@.root.listed()[i],
                            final(self)@.root.listed()[i],
                            i,
                            upto,
                            button,
                            state,
                            r,
                            call,
                            mut_ref_future(call),
                        ),
    {
        self.root.process_mouse_input(button, state)
    }

    /// Ends the interface: its flag is given up, so that its widgets ask
    /// for layouts in vain, and the tree is handed back.
    pub fn release(self, signals: &mut SignalTable) -> (root: Widget<E>)
        ensures
            root@ == self@.root,
            final(signals)@ == released(old(signals)@, self@.signal),
    {
        signals.release(self.force_layout);
        self.root
    }
}

/// Whether bringing the layout of `ui` up to date is refused because the
/// tree is too large: a layout is due, and the tree has more widgets than
/// the solver can number.
pub open spec fn too_large<E: UiElement>(ui: UiView<E>, flags: Seq<Flag>) -> bool {
    is_up(flags, ui.signal) && ui.root.count() > NODE_LIMIT
}

/// A second pass changes nothing: once the layout has been brought up to
/// date, which takes the flag down, bringing it up to date again leaves
/// every rectangle as it is.
pub proof fn law_second_pass_changes_nothing<E: UiElement>(
    before: UiView<E>,
    flags: Seq<Flag>,
    once: UiView<E>,
    twice: UiView<E>,
)
    requires
        up_to_date(before, flags, once),
        up_to_date(once, lowered(flags, before.signal), twice),
    ensures
        twice == once,
{
    assert(once.signal == before.signal);
    assert(!is_up(lowered(flags, before.signal), before.signal));
}

} // verus!
